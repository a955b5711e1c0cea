//! The steps of a round, and where a refusal leaves it.
use crate::fiat_shamir::{
    lemma_stopped_after, lemma_stopped_prefix, pow_trace, stopped, taken, Entry, PowBits,
    ProofError, Request,
};
use crate::field::Ext;
use crate::whir::parameters::WhirConfig;
use crate::whir::prover::round::{
    combination_trace, commitment_trace, queries_trace, round_sumcheck, round_trace, RoundReplies,
    RoundView,
};
use crate::whir::utils::ood_trace;
use vstd::prelude::*;

verus! {

/// The steps of work that is done only where its difficulty is positive, and of a challenge.
pub open spec fn challenge_trace(bits: PowBits, gamma: Ext) -> Seq<Entry> {
    pow_trace(bits).push(Entry::Challenge(seq![gamma]))
}

/// A run that ends in a part of its steps ends within all of them.
pub proof fn lemma_stopped_within(
    now: Seq<Entry>,
    log: Seq<Entry>,
    done: Seq<Entry>,
    part: Seq<Entry>,
    whole: Seq<Entry>,
    e: ProofError,
)
    requires
        stopped(now, log + done, part, e),
        (done + part).is_prefix_of(whole),
    ensures
        stopped(now, log, whole, e),
        done.len() <= taken(now, log) < done.len() + part.len(),
{
    lemma_stopped_after(now, log, done, part, e);
    lemma_stopped_prefix(now, log, done + part, whole, e);
}

/// The parts that the steps of a round begin with.
pub proof fn lemma_round_parts(s: RoundView, config: &WhirConfig, round: nat, replies: RoundReplies)
    ensures
        ({
            let sampled = commitment_trace(s, config, round) + ood_trace(
                s.folded(),
                replies.ood,
                config.variables_after(round),
            );
            let queried = queries_trace(s, config, round, replies);
            let params = config.round_parameters@[round as int];
            let combined = combination_trace(s, config, round, replies);
            let rest = round_sumcheck(s, config, round, replies).trace(
                replies.folds,
                params.folding_pow_bits,
            );
            let whole = round_trace(s, config, round, replies);
            &&& sampled.is_prefix_of(whole)
            &&& sampled + seq![Entry::Bytes(replies.bytes)] == queried
            &&& queried.is_prefix_of(whole)
            &&& queried + challenge_trace(params.pow_bits, replies.gamma) == combined
            &&& combined.is_prefix_of(whole)
            &&& (combined + rest).is_prefix_of(whole)
        }),
{
    reveal(round_trace);
    let sampled = commitment_trace(s, config, round) + ood_trace(
        s.folded(),
        replies.ood,
        config.variables_after(round),
    );
    let queried = queries_trace(s, config, round, replies);
    let bits = config.round_parameters@[round as int].pow_bits;
    let combined = combination_trace(s, config, round, replies);
    let whole = round_trace(s, config, round, replies);
    assert(sampled =~= whole.subrange(0, sampled.len() as int));
    assert(sampled + seq![Entry::Bytes(replies.bytes)] =~= queried);
    assert(queried =~= whole.subrange(0, queried.len() as int));
    assert(queried + challenge_trace(bits, replies.gamma) =~= combined);
    assert(combined =~= whole.subrange(0, combined.len() as int));
    assert(whole.subrange(0, whole.len() as int) =~= whole);
}

/// A round that was refused its commitment or its samples.
pub proof fn lemma_refused_sampling(
    s: RoundView,
    config: &WhirConfig,
    round: nat,
    replies: RoundReplies,
    log: Seq<Entry>,
    now: Seq<Entry>,
    e: ProofError,
)
    requires
        stopped(
            now,
            log,
            commitment_trace(s, config, round) + ood_trace(
                s.folded(),
                replies.ood,
                config.variables_after(round),
            ),
            e,
        ),
    ensures
        stopped(now, log, round_trace(s, config, round, replies), e),
        taken(now, log) < queries_trace(s, config, round, replies).len(),
        taken(now, log) < combination_trace(s, config, round, replies).len(),
{
    let sampled = commitment_trace(s, config, round) + ood_trace(
        s.folded(),
        replies.ood,
        config.variables_after(round),
    );
    lemma_round_parts(s, config, round, replies);
    lemma_stopped_prefix(now, log, sampled, round_trace(s, config, round, replies), e);
}

/// A round that was refused its queries.
pub proof fn lemma_refused_queries(
    s: RoundView,
    config: &WhirConfig,
    round: nat,
    replies: RoundReplies,
    log: Seq<Entry>,
    now: Seq<Entry>,
    e: ProofError,
)
    requires
        now == (log + (commitment_trace(s, config, round) + ood_trace(
            s.folded(),
            replies.ood,
            config.variables_after(round),
        ))).push(Entry::Refused(Request::Bytes(replies.bytes.len()), e)),
    ensures
        stopped(now, log, round_trace(s, config, round, replies), e),
        taken(now, log) < queries_trace(s, config, round, replies).len(),
        taken(now, log) < combination_trace(s, config, round, replies).len(),
{
    let sampled = commitment_trace(s, config, round) + ood_trace(
        s.folded(),
        replies.ood,
        config.variables_after(round),
    );
    let part = seq![Entry::Bytes(replies.bytes)];
    lemma_round_parts(s, config, round, replies);
    assert(log + sampled + part.take(0) =~= log + sampled);
    lemma_stopped_within(now, log, sampled, part, round_trace(s, config, round, replies), e);
}

/// A round that was refused its work or its combination challenge.
pub proof fn lemma_refused_combination(
    s: RoundView,
    config: &WhirConfig,
    round: nat,
    replies: RoundReplies,
    log: Seq<Entry>,
    now: Seq<Entry>,
    e: ProofError,
)
    requires
        stopped(
            now,
            log + queries_trace(s, config, round, replies),
            challenge_trace(config.round_parameters@[round as int].pow_bits, replies.gamma),
            e,
        ),
    ensures
        stopped(now, log, round_trace(s, config, round, replies), e),
        queries_trace(s, config, round, replies).len() <= taken(now, log) < combination_trace(
            s,
            config,
            round,
            replies,
        ).len(),
{
    lemma_round_parts(s, config, round, replies);
    lemma_stopped_within(
        now,
        log,
        queries_trace(s, config, round, replies),
        challenge_trace(config.round_parameters@[round as int].pow_bits, replies.gamma),
        round_trace(s, config, round, replies),
        e,
    );
}

/// A round that was refused a step of its sumcheck.
pub proof fn lemma_refused_sumcheck(
    s: RoundView,
    config: &WhirConfig,
    round: nat,
    replies: RoundReplies,
    log: Seq<Entry>,
    now: Seq<Entry>,
    e: ProofError,
)
    requires
        stopped(
            now,
            log + combination_trace(s, config, round, replies),
            round_sumcheck(s, config, round, replies).trace(
                replies.folds,
                config.round_parameters@[round as int].folding_pow_bits,
            ),
            e,
        ),
    ensures
        stopped(now, log, round_trace(s, config, round, replies), e),
        queries_trace(s, config, round, replies).len() <= combination_trace(
            s,
            config,
            round,
            replies,
        ).len() <= taken(now, log),
{
    lemma_round_parts(s, config, round, replies);
    lemma_stopped_within(
        now,
        log,
        combination_trace(s, config, round, replies),
        round_sumcheck(s, config, round, replies).trace(
            replies.folds,
            config.round_parameters@[round as int].folding_pow_bits,
        ),
        round_trace(s, config, round, replies),
        e,
    );
}

} // verus!
