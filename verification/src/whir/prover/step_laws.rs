//! What is sent and received in a proof, step by step, and where the work stands.
use crate::encoding::encoded_rows;
use crate::fiat_shamir::{law_pow_steps, law_stopped, stopped, taken, Entry, ProofError};
use crate::field::Ext;
use crate::merkle::ext_commitment;
use crate::sumcheck::law_sumcheck_steps;
use crate::whir::committer::Witness;
use crate::whir::parameters::WhirConfig;
use crate::whir::prover::model::{
    lemma_trace_after_prefix, prove_trace, state_after, trace_after, Replies,
};
use crate::whir::prover::round::{
    after_final, after_round, combination_trace, final_outcome, final_stopped, final_sumcheck,
    final_trace, init_sumcheck, init_trace, queries_trace, round_refused, round_stopped,
    round_sumcheck, round_trace, FinalReplies, RoundReplies, RoundState,
};
use crate::whir::statement::ConstraintView;
use crate::whir::utils::{law_bytes_per_query, law_ood_steps, ood_answers, query_indices};
use vstd::prelude::*;

verus! {

/// The steps up to the end of some of the rounds are the first steps of the proof.
proof fn lemma_first_steps(
    config: &WhirConfig,
    cs: Seq<ConstraintView>,
    witness: &Witness,
    replies: Replies,
    k: int,
)
    requires
        0 <= k <= replies.rounds.len(),
    ensures
        ({
            let first = trace_after(config, cs, witness, replies.init, replies.rounds.take(k));
            let t = prove_trace(config, cs, witness, replies);
            &&& first.len() <= t.len()
            &&& forall|i: int| 0 <= i < first.len() ==> #[trigger] t[i] == first[i]
        }),
{
    let first = trace_after(config, cs, witness, replies.init, replies.rounds.take(k));
    let all = trace_after(config, cs, witness, replies.init, replies.rounds);
    let t = prove_trace(config, cs, witness, replies);
    lemma_trace_after_prefix(config, cs, witness, replies.init, replies.rounds, k);
    assert forall|i: int| 0 <= i < first.len() implies #[trigger] t[i] == first[i] by {
        assert(all.subrange(0, first.len() as int)[i] == all[i]);
    }
}

/// The first steps of a proof. Where a statement is proved, one challenge is received to combine
/// the constraints by, and a sumcheck for the variables of the first folding follows. Where none
/// is, the challenges of the first folding are received at once, that of the last variable last,
/// and right behind them stands the first folding's work, where its difficulty is positive.
pub proof fn law_first_steps(
    config: &WhirConfig,
    cs: Seq<ConstraintView>,
    witness: &Witness,
    replies: Replies,
)
    requires
        replies.answers(config),
    ensures
        ({
            let t = prove_trace(config, cs, witness, replies);
            let first = trace_after(config, cs, witness, replies.init, replies.rounds.take(0));
            let a = first.len() as int;
            let bits = config.starting_folding_pow_bits;
            let folds = replies.init.folds;
            let positive = 0 < bits.0 <= 0x7FF0_0000_0000_0000;
            &&& folds.len() == config.folding_factor.at(0)
            &&& a <= t.len()
            &&& config.initial_statement ==> {
                &&& t[0] == Entry::Challenge(seq![replies.init.gamma])
                &&& positive ==> a == 1 + 3 * folds.len()
                &&& !positive ==> a == 1 + 2 * folds.len()
            }
            &&& !config.initial_statement ==> {
                &&& t[0] is Challenge
                &&& t[0]->Challenge_0.len() == folds.len()
                &&& forall|i: int|
                    0 <= i < folds.len() ==> t[0]->Challenge_0[folds.len() - 1 - i]
                        == #[trigger] folds[i]
                &&& positive ==> a == 2 && t[1] == Entry::Pow(bits)
                &&& !positive ==> a == 1
            }
        }),
{
    reveal(init_trace);
    lemma_first_steps(config, cs, witness, replies, 0);
    let v = init_sumcheck(config, cs, witness, replies.init);
    let bits = config.starting_folding_pow_bits;
    let folds = replies.init.folds;
    if folds.len() > 0 {
        law_sumcheck_steps(v, folds, bits, 0);
    }
    law_pow_steps(bits);
}

/// The steps of the sumcheck for the statement: each variable of the first folding has a round of
/// it, with the first folding's work right behind its challenge, where its difficulty is positive.
pub proof fn law_first_sumcheck_steps(
    config: &WhirConfig,
    cs: Seq<ConstraintView>,
    witness: &Witness,
    replies: Replies,
    i: int,
)
    requires
        replies.answers(config),
        config.initial_statement,
        0 <= i < config.folding_factor.at(0),
    ensures
        ({
            let t = prove_trace(config, cs, witness, replies);
            let v = init_sumcheck(config, cs, witness, replies.init);
            let bits = config.starting_folding_pow_bits;
            let folds = replies.init.folds;
            let message = v.bind_all(folds.take(i)).message();
            if 0 < bits.0 <= 0x7FF0_0000_0000_0000 {
                &&& t[1 + 3 * i] == Entry::Scalars(message)
                &&& t[2 + 3 * i] == Entry::Challenge(seq![folds[i]])
                &&& t[3 + 3 * i] == Entry::Pow(bits)
            } else {
                &&& t[1 + 2 * i] == Entry::Scalars(message)
                &&& t[2 + 2 * i] == Entry::Challenge(seq![folds[i]])
            }
        }),
{
    reveal(init_trace);
    lemma_first_steps(config, cs, witness, replies, 0);
    let v = init_sumcheck(config, cs, witness, replies.init);
    law_sumcheck_steps(v, replies.init.folds, config.starting_folding_pow_bits, i);
}

/// The steps of a round that is not the final one, before its sumcheck: the root of the new
/// commitment is sent, to the rows that the next round opens; the samples are received and
/// answered, where there are any; the bytes of the queries are received, for each query as many as
/// its bits take; right behind them stands the round's work, where its difficulty is positive; and
/// one challenge is received to combine the constraints by.
pub proof fn law_round_steps(
    config: &WhirConfig,
    cs: Seq<ConstraintView>,
    witness: &Witness,
    replies: Replies,
    k: int,
)
    requires
        replies.answers(config),
        0 <= k < config.round_parameters@.len(),
    ensures
        ({
            let t = prove_trace(config, cs, witness, replies);
            let s = state_after(config, cs, witness, replies.init, replies.rounds.take(k));
            let next = state_after(config, cs, witness, replies.init, replies.rounds.take(k + 1));
            let tree = next.ext_tree.unwrap();
            let first = trace_after(config, cs, witness, replies.init, replies.rounds.take(k));
            let a = first.len() as int;
            let b = trace_after(
                config,
                cs,
                witness,
                replies.init,
                replies.rounds.take(k + 1),
            ).len();
            let params = config.round_parameters@[k];
            let reply = replies.rounds[k];
            let factor = config.folding_factor.at((k + 1) as nat);
            let domain = config.starting_domain.log_size - k;
            let bits = domain as nat - config.folding_factor.at(k as nat);
            let left = config.mv_parameters.num_variables - config.folding_factor.total(k as nat);
            let o: int = if params.ood_samples == 0 {
                0
            } else {
                2
            };
            let p: int = if 0 < params.pow_bits.0 <= 0x7FF0_0000_0000_0000 {
                1
            } else {
                0
            };
            let rest: int = if 0 < params.folding_pow_bits.0 <= 0x7FF0_0000_0000_0000 {
                3 * factor as int
            } else {
                2 * factor as int
            };
            &&& next.coeffs == s.folded()
            &&& next.ext_tree is Some
            &&& tree.rows == encoded_rows(s.folded(), (domain - 1) as nat, factor)
            &&& tree.paths == ext_commitment(tree.rows).1
            &&& t[a] == Entry::Digest(ext_commitment(tree.rows).0)
            &&& reply.ood.len() == params.ood_samples
            &&& params.ood_samples > 0 ==> t[a + 1] == Entry::Challenge(reply.ood)
            &&& params.ood_samples > 0 ==> t[a + 2] == Entry::Scalars(
                ood_answers(s.folded(), reply.ood, left as nat),
            )
            &&& t[a + o + 1] == Entry::Bytes(reply.bytes)
            &&& reply.bytes.len() == params.num_queries * ((bits as nat + 7) / 8)
            &&& p == 1 ==> t[a + o + 2] == Entry::Pow(params.pow_bits)
            &&& t[a + o + p + 2] == Entry::Challenge(seq![reply.gamma])
            &&& reply.folds.len() == factor
            &&& b == a + o + p + 3 + rest
            &&& b <= t.len()
        }),
{
    reveal(round_trace);
    reveal(after_round);
    let rounds = replies.rounds;
    let reply = rounds[k];
    let s = state_after(config, cs, witness, replies.init, rounds.take(k));
    let params = config.round_parameters@[k];
    assert(rounds.take(k + 1).drop_last() =~= rounds.take(k));
    assert(rounds.take(k + 1).last() == reply);
    assert(reply.answers(config, k as nat));
    lemma_first_steps(config, cs, witness, replies, k + 1);
    law_pow_steps(params.pow_bits);
    law_ood_steps(s.folded(), reply.ood, config.variables_after(k as nat));
    let v = round_sumcheck(s, config, k as nat, reply);
    law_bytes_per_query(config.log_folded(k as nat));
    if reply.folds.len() > 0 {
        law_sumcheck_steps(v, reply.folds, params.folding_pow_bits, 0);
    }
}

/// The steps of the sumcheck of a round that is not the final one: each variable of the next
/// folding has a round of the sumcheck, with the round's folding work right behind its challenge,
/// where its difficulty is positive.
pub proof fn law_round_sumcheck_steps(
    config: &WhirConfig,
    cs: Seq<ConstraintView>,
    witness: &Witness,
    replies: Replies,
    k: int,
    i: int,
)
    requires
        replies.answers(config),
        0 <= k < config.round_parameters@.len(),
        0 <= i < config.folding_factor.at((k + 1) as nat),
    ensures
        ({
            let t = prove_trace(config, cs, witness, replies);
            let s = state_after(config, cs, witness, replies.init, replies.rounds.take(k));
            let b = trace_after(
                config,
                cs,
                witness,
                replies.init,
                replies.rounds.take(k + 1),
            ).len();
            let reply = replies.rounds[k];
            let bits = config.round_parameters@[k].folding_pow_bits;
            let v = round_sumcheck(s, config, k as nat, reply);
            let message = v.bind_all(reply.folds.take(i)).message();
            let rest = reply.folds.len() - i;
            if 0 < bits.0 <= 0x7FF0_0000_0000_0000 {
                &&& t[b - 3 * rest] == Entry::Scalars(message)
                &&& t[b - 3 * rest + 1] == Entry::Challenge(seq![reply.folds[i]])
                &&& t[b - 3 * rest + 2] == Entry::Pow(bits)
            } else {
                &&& t[b - 2 * rest] == Entry::Scalars(message)
                &&& t[b - 2 * rest + 1] == Entry::Challenge(seq![reply.folds[i]])
            }
        }),
{
    reveal(round_trace);
    let rounds = replies.rounds;
    let reply = rounds[k];
    let s = state_after(config, cs, witness, replies.init, rounds.take(k));
    let bits = config.round_parameters@[k].folding_pow_bits;
    assert(rounds.take(k + 1).drop_last() =~= rounds.take(k));
    assert(rounds.take(k + 1).last() == reply);
    assert(reply.answers(config, k as nat));
    lemma_first_steps(config, cs, witness, replies, k + 1);
    law_sumcheck_steps(round_sumcheck(s, config, k as nat, reply), reply.folds, bits, i);
}

/// The last steps of a proof. The coefficients of the last polynomial are sent, and the bytes of
/// the final queries are received, for each query as many as its bits take. Right behind the bytes
/// stands the final work, where its difficulty is positive; otherwise no work stands between them
/// and the first message of the final sumcheck. Nothing stands behind the final sumcheck.
pub proof fn law_final_steps(
    config: &WhirConfig,
    cs: Seq<ConstraintView>,
    witness: &Witness,
    replies: Replies,
)
    requires
        replies.answers(config),
    ensures
        ({
            let t = prove_trace(config, cs, witness, replies);
            let s = state_after(config, cs, witness, replies.init, replies.rounds);
            let first = trace_after(config, cs, witness, replies.init, replies.rounds);
            let a = first.len() as int;
            let v = final_sumcheck(s, s.folded());
            let n = config.round_parameters@.len();
            let bits = (config.starting_domain.log_size - n) as nat - config.folding_factor.at(n);
            let work = 0 < config.final_pow_bits.0 <= 0x7FF0_0000_0000_0000;
            let folds = replies.last.folds;
            let rest: int = if 0 < config.final_folding_pow_bits.0 <= 0x7FF0_0000_0000_0000 {
                3 * folds.len() as int
            } else {
                2 * folds.len() as int
            };
            &&& replies.rounds.len() == n
            &&& t[a] == Entry::Scalars(s.folded())
            &&& t[a + 1] == Entry::Bytes(replies.last.bytes)
            &&& replies.last.bytes.len() == config.final_queries * ((bits as nat + 7) / 8)
            &&& folds.len() == config.final_sumcheck_rounds
            &&& work ==> {
                &&& t[a + 2] == Entry::Pow(config.final_pow_bits)
                &&& folds.len() > 0 ==> t[a + 3] == Entry::Scalars(v.message())
                &&& t.len() == a + 3 + rest
            }
            &&& !work ==> {
                &&& folds.len() > 0 ==> t[a + 2] == Entry::Scalars(v.message())
                &&& t.len() == a + 2 + rest
            }
        }),
{
    reveal(final_trace);
    let s = state_after(config, cs, witness, replies.init, replies.rounds);
    let folds = replies.last.folds;
    let v = final_sumcheck(s, s.folded());
    law_pow_steps(config.final_pow_bits);
    law_bytes_per_query(config.log_folded(config.rounds()));
    if folds.len() > 0 {
        law_sumcheck_steps(v, folds, config.final_folding_pow_bits, 0);
    }
}

/// The steps of the final sumcheck: each variable that is left has a round of it, with the final
/// folding's work right behind its challenge, where its difficulty is positive.
pub proof fn law_final_sumcheck_steps(
    config: &WhirConfig,
    cs: Seq<ConstraintView>,
    witness: &Witness,
    replies: Replies,
    i: int,
)
    requires
        replies.answers(config),
        0 <= i < config.final_sumcheck_rounds,
    ensures
        ({
            let t = prove_trace(config, cs, witness, replies);
            let s = state_after(config, cs, witness, replies.init, replies.rounds);
            let bits = config.final_folding_pow_bits;
            let folds = replies.last.folds;
            let message = final_sumcheck(s, s.folded()).bind_all(folds.take(i)).message();
            let rest = folds.len() - i;
            if 0 < bits.0 <= 0x7FF0_0000_0000_0000 {
                &&& t[t.len() - 3 * rest] == Entry::Scalars(message)
                &&& t[t.len() - 3 * rest + 1] == Entry::Challenge(seq![folds[i]])
                &&& t[t.len() - 3 * rest + 2] == Entry::Pow(bits)
            } else {
                &&& t[t.len() - 2 * rest] == Entry::Scalars(message)
                &&& t[t.len() - 2 * rest + 1] == Entry::Challenge(seq![folds[i]])
            }
        }),
{
    reveal(final_trace);
    let s = state_after(config, cs, witness, replies.init, replies.rounds);
    let v = final_sumcheck(s, s.folded());
    law_sumcheck_steps(v, replies.last.folds, config.final_folding_pow_bits, i);
}

// Refusals.

/// A refused round leaves the domain, the polynomial, its folding randomness, the commitments, the
/// statement and the challenges as they were. If the refusal came before the queries were
/// received, nothing was opened. The running sumcheck is kept until the constraints are combined,
/// and is gone when the refusal came behind that.
pub proof fn law_round_refused(
    config: &WhirConfig,
    round: nat,
    before: &RoundState,
    after: &RoundState,
    log: Seq<Entry>,
    now: Seq<Entry>,
    e: ProofError,
)
    requires
        round < config.round_parameters@.len(),
        round_refused(config, round, before, after, log, now, e),
    ensures
        ({
            let params = config.round_parameters@[round as int];
            let steps = now.len() - log.len() - 1;
            let o: int = if params.ood_samples == 0 {
                0
            } else {
                2
            };
            let p: int = if 0 < params.pow_bits.0 <= 0x7FF0_0000_0000_0000 {
                1
            } else {
                0
            };
            let bits = (config.starting_domain.log_size - round) as nat
                - config.folding_factor.at(round);
            &&& steps >= 0
            &&& now.last() is Refused
            &&& now.last()->Refused_1 == e
            &&& after.domain == before.domain
            &&& after.folding_randomness == before.folding_randomness
            &&& after.coefficients == before.coefficients
            &&& after.commitment_merkle_prover_data == before.commitment_merkle_prover_data
            &&& after.merkle_prover_data == before.merkle_prover_data
            &&& after.randomness_vec == before.randomness_vec
            &&& after.statement == before.statement
            &&& steps < o + 2 ==> after.merkle_proofs == before.merkle_proofs
                && after.commitment_merkle_proof == before.commitment_merkle_proof
            &&& steps >= o + 2 ==> now[log.len() + o + 1] is Bytes && {
                let bytes = now[log.len() + o + 1]->Bytes_0;
                let indices = query_indices(bytes, params.num_queries as nat, bits as nat);
                match before@.ext_tree {
                    None => after@.merkle_proofs == before@.merkle_proofs
                        && after@.commitment_proof == Some(before@.base_tree.open(indices)),
                    Some(tree) => after@.commitment_proof == before@.commitment_proof
                        && after@.merkle_proofs == before@.merkle_proofs.push(tree.open(indices)),
                }
            }
            &&& steps < o + p + 3 ==> after.sumcheck_prover == before.sumcheck_prover
            &&& steps >= o + p + 3 ==> after.sumcheck_prover is None
        }),
{
    reveal(round_trace);
    let s = before@;
    let params = config.round_parameters@[round as int];
    let replies = choose|replies: RoundReplies|
        {
            &&& replies.answers(config, round)
            &&& after@ == round_stopped(
                s,
                config,
                round,
                replies,
                taken(now, log),
            )
            &&& stopped(
                now,
                log,
                #[trigger] round_trace(s, config, round, replies),
                e,
            )
            &&& taken(now, log)
                < queries_trace(s, config, round, replies).len()
                ==> after.same_openings(before)
            &&& taken(now, log)
                < combination_trace(s, config, round, replies).len()
                ==> after.sumcheck_prover == before.sumcheck_prover
        };
    law_stopped(now, log, round_trace(s, config, round, replies), e);
    law_pow_steps(params.pow_bits);
    law_ood_steps(s.folded(), replies.ood, config.variables_after(round));
}

/// The final round leaves the domain, the polynomial, its folding randomness, the commitments, the
/// statement and the running sumcheck as they were, whether it was refused or not. If it was
/// refused, the challenges are as they were, and nothing was opened unless the queries had been
/// received.
pub proof fn law_final_outcome(
    config: &WhirConfig,
    c: Seq<Ext>,
    before: &RoundState,
    after: &RoundState,
    log: Seq<Entry>,
    now: Seq<Entry>,
    r: Result<(), ProofError>,
)
    requires
        final_outcome(config, c, before, after, log, now, r),
    ensures
        ({
            let n = config.round_parameters@.len();
            let bits = (config.starting_domain.log_size - n) as nat - config.folding_factor.at(n);
            let a = log.len() as int;
            let opened = r is Ok || now.len() - a - 1 >= 2;
            &&& after.domain == before.domain
            &&& after.folding_randomness == before.folding_randomness
            &&& after.coefficients == before.coefficients
            &&& after.commitment_merkle_prover_data == before.commitment_merkle_prover_data
            &&& after.merkle_prover_data == before.merkle_prover_data
            &&& after.statement == before.statement
            &&& after.sumcheck_prover == before.sumcheck_prover
            &&& r matches Err(e) ==> {
                &&& after.randomness_vec == before.randomness_vec
                &&& now.last() is Refused
                &&& now.last()->Refused_1 == e
            }
            &&& !opened ==> after.merkle_proofs == before.merkle_proofs
                && after.commitment_merkle_proof == before.commitment_merkle_proof
            &&& opened ==> now[a] == Entry::Scalars(c) && now[a + 1] is Bytes && {
                let bytes = now[a + 1]->Bytes_0;
                let indices = query_indices(bytes, config.final_queries as nat, bits as nat);
                match before@.ext_tree {
                    None => after@.merkle_proofs == before@.merkle_proofs
                        && after@.commitment_proof == Some(before@.base_tree.open(indices)),
                    Some(tree) => after@.commitment_proof == before@.commitment_proof
                        && after@.merkle_proofs == before@.merkle_proofs.push(tree.open(indices)),
                }
            }
        }),
{
    reveal(final_trace);
    reveal(after_final);
    let s = before@;
    match r {
        Ok(_) => {
            let replies = choose|replies: FinalReplies|
                {
                    &&& replies.answers(config)
                    &&& after@ == after_final(s, config, replies)
                    &&& now == log + #[trigger] final_trace(s, c, config, replies)
                };
            let t = final_trace(s, c, config, replies);
            assert(t[0] == Entry::Scalars(c) && t[1] == Entry::Bytes(replies.bytes));
        },
        Err(e) => {
            let replies = choose|replies: FinalReplies|
                {
                    &&& replies.answers(config)
                    &&& after@ == final_stopped(
                        s,
                        config,
                        replies,
                        taken(now, log),
                    )
                    &&& stopped(
                        now,
                        log,
                        #[trigger] final_trace(s, c, config, replies),
                        e,
                    )
                };
            let t = final_trace(s, c, config, replies);
            law_stopped(now, log, t, e);
            assert(t[0] == Entry::Scalars(c) && t[1] == Entry::Bytes(replies.bytes));
        },
    }
}

} // verus!
