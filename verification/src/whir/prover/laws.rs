//! What holds of a proof as a whole: an honest prover has a true claim in every round, its answers
//! to queries agree with the polynomial that it goes on with, and the challenges make up the point
//! at which the committed polynomial is evaluated.
use crate::domain::{
    law_root_distinct, law_root_order, law_root_powers, lemma_pow2_monotone, root_of_unity,
    TWO_ADICITY,
};
use crate::encoding::{encode, encoded_rows, law_open_is_fold, padded};
use crate::fiat_shamir::{stopped, taken, Entry, PowBits, ProofError};
use crate::field::{lemma_canonical, lemma_one, lemma_power_mul, lemma_zero, Ext};
use crate::merkle::{base_tree_view, lemma_rows_shape};
use crate::poly::coeffs::{
    evaluate, fold, law_fold_compose, lemma_fold_canonical, lemma_fold_len, lift_all,
};
use crate::poly::evals::{
    extend, extend_all, hypercube, law_eq_weights, law_extend_combination, lemma_eq_weights_len,
    lemma_extend_linear, lemma_extend_zeros, lemma_hypercube_canonical, lemma_hypercube_len,
};
use crate::poly::multilinear::{expand, lemma_expand_len};
use crate::poly::vector::{
    all_canonical, dot, law_weighted_sum, lemma_dot_canonical, lemma_dot_zeros, lemma_vec_canonical,
    lemma_weighted_sum_len, powers, vscale, weighted_sum, zeros,
};
use crate::sumcheck::{
    eq_vectors, law_bind_all_holds, law_bind_all_is_fold, law_bind_all_weight, law_equalities_hold,
    lemma_bind_all_sized, SumcheckView,
};
use crate::whir::committer::{lift_rows, Witness};
use crate::whir::parameters::WhirConfig;
use crate::whir::prover::model::{
    final_state, proof_of, prove_trace, state_after, trace_after, Replies,
};
use crate::whir::prover::round::{
    after_final, after_init, after_round, all_constraints, final_sumcheck, final_trace,
    init_sumcheck, init_trace, ood_constraints, round_points, round_sumcheck, round_trace,
    round_values, stir_points, FinalReplies, InitReplies, RoundReplies, RoundView,
};
use crate::whir::statement::{law_combine, satisfies, vectors, ConstraintView, WeightsView};
use crate::whir::utils::{law_query_indices, ood_answers, query_indices};
use vstd::arithmetic::mul::lemma_mul_is_commutative;
use vstd::arithmetic::power2::{lemma2_to64, pow2};
use vstd::prelude::*;

verus! {

/// The state is that of an honest prover: the last commitment is to the codeword of the
/// polynomial, and the claim of the sumcheck is a true one about the folded polynomial.
pub open spec fn honest(s: RoundView, config: &WhirConfig, round: nat) -> bool {
    &&& s.sized(config, round)
    &&& all_canonical(s.coeffs)
    &&& forall|i: usize|
        i < pow2(s.log_height()) ==> #[trigger] s.leaf(i) == encoded_rows(
            s.coeffs,
            s.log_size,
            s.folding.len(),
        )[i as int]
    &&& s.sumcheck matches Some(v) ==> {
        &&& v.p == hypercube(s.folded())
        &&& all_canonical(v.w)
        &&& v.holds()
    }
}

/// The witness is an honest one for the constraints: its commitment is to the codeword of its
/// polynomial, its answers are the values of the polynomial, and the polynomial meets the
/// constraints.
pub open spec fn honest_witness(
    config: &WhirConfig,
    cs: Seq<ConstraintView>,
    witness: &Witness,
) -> bool {
    let c = lift_all(witness.polynomial@);
    let n = config.variables();
    &&& witness.wf(config)
    &&& witness.polynomial.num_variables == n
    &&& all_canonical(c)
    &&& lift_rows(base_tree_view(witness.prover_data).rows) == encoded_rows(
        c,
        config.log_domain(0),
        config.folding_factor.at(0),
    )
    &&& witness.ood_answers@ == ood_answers(c, witness.ood_points@, n)
    &&& satisfies(c, cs, n)
    &&& config.initial_statement || (cs.len() == 0 && witness.ood_points@.len() == 0)
}

/// The polynomial of a round fits into its domain.
proof fn lemma_domain(config: &WhirConfig, round: nat)
    requires
        config.usable(),
        round <= config.rounds(),
    ensures
        config.variables_before(round) <= config.log_domain(round),
        config.folding_factor.at(round) + round < config.starting_domain.log_size,
{
    assert(config.folding_factor.at(round) + round < config.starting_domain.log_size);
    if round > 0 {
        assert(config.variables_after((round - 1) as nat) <= config.log_domain(
            (round - 1) as nat + 1,
        ));
    }
}

/// The folded polynomial of an honest state.
proof fn lemma_folded(s: RoundView, config: &WhirConfig, round: nat)
    requires
        config.usable(),
        round <= config.rounds(),
        honest(s, config, round),
    ensures
        s.folded().len() == pow2(config.variables_after(round)),
        all_canonical(s.folded()),
        hypercube(s.folded()).len() == pow2(config.variables_after(round)),
        all_canonical(hypercube(s.folded())),
{
    config.lemma_variables(round);
    lemma_domain(config, round);
    lemma_fold_len(s.coeffs, s.folding, config.variables_before(round));
    lemma_fold_canonical(s.coeffs, s.folding);
    lemma_hypercube_len(s.folded(), config.variables_after(round));
    lemma_hypercube_canonical(s.folded(), config.variables_after(round));
}

/// The answer to a query is the value of the folded polynomial at the queried element of the
/// folded domain.
pub proof fn law_stir_answer(s: RoundView, config: &WhirConfig, round: nat, index: usize)
    requires
        config.usable(),
        round <= config.rounds(),
        honest(s, config, round),
        index < pow2(config.log_folded(round)),
    ensures
        evaluate(s.leaf(index), s.folding) == evaluate(
            s.folded(),
            expand(
                root_of_unity(config.log_folded(round)).power(index as nat),
                config.variables_after(round),
            ),
        ),
{
    config.lemma_variables(round);
    lemma_domain(config, round);
    law_open_is_fold(
        s.coeffs,
        config.variables_before(round),
        s.log_size,
        s.folding,
        index as nat,
    );
    assert(s.leaf(index) == encoded_rows(s.coeffs, s.log_size, s.folding.len())[index as int]);
}

/// An honest witness for a true statement gives an honest state before the first round.
pub proof fn law_init_honest(
    config: &WhirConfig,
    cs: Seq<ConstraintView>,
    witness: &Witness,
    replies: InitReplies,
)
    requires
        config.usable(),
        honest_witness(config, cs, witness),
        replies.answers(config),
    ensures
        honest(after_init(config, cs, witness, replies), config, 0),
{
    reveal(after_init);
    config.lemma_variables(0);
    lemma_domain(config, 0);
    let s = after_init(config, cs, witness, replies);
    let c = s.coeffs;
    let n = config.variables();
    let all = all_constraints(config, cs, witness);
    assert forall|i: usize| i < pow2(s.log_height()) implies #[trigger] s.leaf(i) == encoded_rows(
        c,
        s.log_size,
        s.folding.len(),
    )[i as int] by {
        assert(s.leaf(i) == lift_rows(s.base_tree.rows)[i as int]);
    }
    if config.initial_statement {
        let v = init_sumcheck(config, cs, witness, replies);
        let ood = ood_constraints(witness.ood_points@, witness.ood_answers@, n);
        assert forall|i: int| 0 <= i < all.len() implies (#[trigger] all[i]).0.fits(n) && dot(
            hypercube(c),
            all[i].0.vector(),
        ) == all[i].1 by {
            if i < ood.len() {
                let point = expand(witness.ood_points@[i], n);
                lemma_expand_len(witness.ood_points@[i], n);
                law_eq_weights(c, point);
                assert(all[i] == ood[i]);
            } else {
                assert(all[i] == cs[i - ood.len()]);
            }
        }
        law_combine(c, all, replies.gamma, n);
        lemma_hypercube_len(c, n);
        lemma_hypercube_canonical(c, n);
        lemma_weighted_sum_len(
            vectors(all),
            powers(replies.gamma, all.len()),
            pow2(n),
        );
        law_bind_all_holds(v, replies.folds, n);
        law_bind_all_is_fold(v, c, replies.folds, n);
    } else {
        assert(all =~= Seq::<ConstraintView>::empty());
    }
}

/// Every constraint that an honest prover hands to the sumcheck of a round is true: there are as
/// many values as points, one for each sample and then one for each query, and each value is that
/// of the folded polynomial at its point. The values for queries are those of the opened rows at
/// the folding randomness from before the round.
pub proof fn law_round_pairs(
    s: RoundView,
    config: &WhirConfig,
    round: nat,
    replies: RoundReplies,
    i: int,
)
    requires
        config.usable(),
        round < config.rounds(),
        honest(s, config, round),
        0 <= i < round_points(config, round, replies).len(),
    ensures
        ({
            let points = round_points(config, round, replies);
            let values = round_values(s, config, round, replies);
            let indices = replies.indices(config, round);
            &&& points.len() == values.len() == replies.ood.len() + indices.len()
            &&& points[i].len() == config.variables_after(round)
            &&& evaluate(s.folded(), points[i]) == values[i]
            &&& i >= replies.ood.len() ==> values[i] == evaluate(
                s.leaf(indices[i - replies.ood.len()]),
                s.folding,
            )
        }),
{
    let n = config.variables_after(round);
    let bits = config.log_folded(round);
    let indices = replies.indices(config, round);
    config.lemma_variables(round);
    lemma_domain(config, round);
    if i < replies.ood.len() {
        lemma_expand_len(replies.ood[i], n);
    } else {
        let index = indices[i - replies.ood.len()];
        lemma_pow2_monotone(bits, config.starting_domain.log_size as nat);
        law_query_indices(replies.bytes, config.queries(round), bits);
        law_stir_answer(s, config, round, index);
        lemma_expand_len(root_of_unity(bits).power(index as nat), n);
    }
}

/// The point of a query is that of the element of the folded domain at the queried index: of the
/// domain itself, the element at the index times the size of a row.
pub proof fn law_stir_point(
    log_size: nat,
    factor: nat,
    ood: Seq<Ext>,
    indices: Seq<usize>,
    n: nat,
    j: int,
)
    requires
        factor <= log_size <= TWO_ADICITY,
        0 <= j < indices.len(),
    ensures
        ({
            let bits = (log_size - factor) as nat;
            let x = root_of_unity(log_size).power(indices[j] as nat * pow2(factor));
            &&& stir_points(bits, ood, indices, n)[ood.len() + j] == expand(x, n)
            &&& x == root_of_unity(bits).power(indices[j] as nat)
            &&& x.power(pow2(bits)) == Ext::one_spec()
        }),
{
    let bits = (log_size - factor) as nat;
    let index = indices[j] as nat;
    law_root_powers(log_size, factor);
    lemma_power_mul(root_of_unity(log_size), pow2(factor), index);
    lemma_mul_is_commutative(index as int, pow2(factor) as int);
    law_root_order(bits, index);
}

/// Different queries have different points, where there are variables.
pub proof fn law_stir_points_distinct(
    bits: nat,
    ood: Seq<Ext>,
    indices: Seq<usize>,
    n: nat,
    i: int,
    j: int,
)
    requires
        bits <= TWO_ADICITY,
        n >= 1,
        0 <= i < indices.len(),
        0 <= j < indices.len(),
        indices[i] != indices[j],
        indices[i] < pow2(bits),
        indices[j] < pow2(bits),
    ensures
        stir_points(bits, ood, indices, n)[ood.len() + i] != stir_points(
            bits,
            ood,
            indices,
            n,
        )[ood.len() + j],
{
    let (x, y) = (
        root_of_unity(bits).power(indices[i] as nat),
        root_of_unity(bits).power(indices[j] as nat),
    );
    if indices[i] < indices[j] {
        law_root_distinct(bits, indices[i] as nat, indices[j] as nat);
    } else {
        law_root_distinct(bits, indices[j] as nat, indices[i] as nat);
    }
    lemma_expand_len(x, n);
    lemma_expand_len(y, n);
    assert(expand(x, n).last() == x);
    assert(expand(y, n).last() == y);
}

/// The samples only come before the points of the queries, and do not bear on them: with other
/// samples, and the same bytes to draw the queries from, the queries and their points are the
/// same.
pub proof fn law_samples_independent(
    bits: nat,
    ood: Seq<Ext>,
    other: Seq<Ext>,
    bytes: Seq<u8>,
    queries: nat,
    n: nat,
)
    ensures
        ({
            let indices = query_indices(bytes, queries, bits);
            stir_points(bits, ood, indices, n).skip(ood.len() as int) == stir_points(
                bits,
                other,
                indices,
                n,
            ).skip(other.len() as int)
        }),
        forall|indices: Seq<usize>|
            #![trigger stir_points(bits, ood, indices, n)]
            stir_points(bits, ood, indices, n).skip(ood.len() as int) == stir_points(
                bits,
                other,
                indices,
                n,
            ).skip(other.len() as int),
{
    assert forall|indices: Seq<usize>|
        #![trigger stir_points(bits, ood, indices, n)]
        stir_points(bits, ood, indices, n).skip(ood.len() as int) == stir_points(
            bits,
            other,
            indices,
            n,
        ).skip(other.len() as int) by {
        assert(stir_points(bits, ood, indices, n).skip(ood.len() as int) =~= stir_points(
            bits,
            other,
            indices,
            n,
        ).skip(other.len() as int));
    }
}

/// The sumcheck of a round of an honest prover starts with a true claim about the folded
/// polynomial.
pub proof fn law_round_claim(s: RoundView, config: &WhirConfig, round: nat, replies: RoundReplies)
    requires
        config.usable(),
        round < config.rounds(),
        honest(s, config, round),
    ensures
        ({
            let v = round_sumcheck(s, config, round, replies);
            &&& v.p == hypercube(s.folded())
            &&& v.sized(config.variables_after(round))
            &&& all_canonical(v.w)
            &&& v.holds()
        }),
{
    let n = config.variables_after(round);
    let points = round_points(config, round, replies);
    let values = round_values(s, config, round, replies);
    let r = powers(replies.gamma, points.len());
    let ws = eq_vectors(points);
    let e = hypercube(s.folded());
    lemma_folded(s, config, round);
    assert forall|i: int| 0 <= i < ws.len() implies (#[trigger] ws[i]).len() == e.len() && dot(
        e,
        ws[i],
    ) == values[i] by {
        law_round_pairs(s, config, round, replies, i);
        lemma_eq_weights_len(points[i]);
        law_eq_weights(s.folded(), points[i]);
    }
    lemma_weighted_sum_len(ws, r, pow2(n));
    match s.sumcheck {
        Some(v) => {
            law_equalities_hold(v, ws, values, r);
            lemma_vec_canonical(Ext::zero_spec(), v.w, weighted_sum(ws, r, v.w.len()));
        },
        None => {
            law_weighted_sum(e, ws, values, r);
        },
    }
}

/// A round leaves a state that the next round can start from: it has a coordinate to fold by for
/// each variable of the next folding, and folding by them leaves the right number of variables.
pub proof fn law_round_sized(s: RoundView, config: &WhirConfig, round: nat, replies: RoundReplies)
    requires
        config.supported(),
        config.balanced(),
        round < config.rounds(),
        s.sized(config, round),
        replies.answers(config, round),
    ensures
        ({
            let t = after_round(s, config, round, replies);
            &&& t.sized(config, round + 1)
            &&& t.folding.len() == config.folding_factor.at(round + 1)
            &&& t.coeffs.len() == pow2(config.variables_after(round))
            &&& t.folded().len() == pow2(
                (config.variables() - config.folding_factor.total(round + 1)) as nat,
            )
        }),
{
    reveal(after_round);
    let t = after_round(s, config, round, replies);
    let n = config.variables_after(round);
    let c = s.folded();
    let (log_size, factor) = (config.log_domain(round + 1), config.folding_factor.at(round + 1));
    config.lemma_variables(round);
    config.lemma_variables(round + 1);
    assert(factor + (round + 1) < config.starting_domain.log_size);
    assert(config.variables_after(round) <= config.log_domain(round + 1));
    lemma_fold_len(s.coeffs, s.folding, config.variables_before(round));
    lemma_fold_len(t.coeffs, t.folding, n);
    let v = round_sumcheck(s, config, round, replies);
    let points = round_points(config, round, replies);
    lemma_hypercube_len(c, n);
    lemma_weighted_sum_len(eq_vectors(points), powers(replies.gamma, points.len()), pow2(n));
    lemma_bind_all_sized(v, replies.folds, n);
    lemma_pow2_monotone(n, log_size);
    assert(padded(c, pow2(log_size)).len() == pow2(log_size));
    lemma_rows_shape(encode(c, log_size, factor), log_size, factor);
    assert(t.log_height() == (log_size - factor) as nat);
}

/// A round writes its challenges behind those of the rounds before, in the order in which they
/// were received, and changes no other entry of the randomness.
pub proof fn law_round_randomness(
    s: RoundView,
    config: &WhirConfig,
    round: nat,
    replies: RoundReplies,
)
    requires
        config.balanced(),
        round < config.rounds(),
        s.sized(config, round),
        replies.answers(config, round),
    ensures
        ({
            let t = after_round(s, config, round, replies);
            let start = config.folding_factor.total(round);
            let k = t.folding.len();
            &&& t.randomness.len() == s.randomness.len()
            &&& start + k <= t.randomness.len()
            &&& forall|j: int|
                0 <= j < k ==> #[trigger] t.randomness[start + j] == t.folding[k - 1 - j]
            &&& forall|i: int|
                0 <= i < s.randomness.len() && !(start <= i < start + k)
                    ==> #[trigger] t.randomness[i] == s.randomness[i]
        }),
{
    reveal(after_round);
    config.lemma_variables(round);
}

/// The final round changes nothing of the state but what was opened and the randomness, and sends
/// no commitment.
pub proof fn law_final_keeps(
    s: RoundView,
    c: Seq<Ext>,
    config: &WhirConfig,
    replies: FinalReplies,
)
    ensures
        ({
            let t = after_final(s, config, replies);
            &&& t.log_size == s.log_size
            &&& t.sumcheck == s.sumcheck
            &&& t.folding == s.folding
            &&& t.coeffs == s.coeffs
            &&& t.base_tree == s.base_tree
            &&& t.ext_tree == s.ext_tree
            &&& t.constraints == s.constraints
        }),
        forall|i: int|
            0 <= i < final_trace(s, c, config, replies).len() ==> !(#[trigger] final_trace(
                s,
                c,
                config,
                replies,
            )[i] is Digest),
{
    reveal(after_final);
    reveal(final_trace);
    lemma_sumcheck_steps(final_sumcheck(s, c), replies.folds, config.final_folding_pow_bits);
}

/// The final round writes its challenges behind those of the rounds, in the order in which they
/// were received, so the last coordinate of the point of the sumcheck first, and changes no other
/// entry of the randomness.
pub proof fn law_final_randomness(s: RoundView, config: &WhirConfig, replies: FinalReplies)
    requires
        config.balanced(),
        s.randomness.len() == config.variables(),
        replies.answers(config),
    ensures
        ({
            let t = after_final(s, config, replies);
            let start = config.folding_factor.total(config.rounds());
            let point = replies.folds.reverse();
            let k = point.len();
            &&& k == config.final_sumcheck_rounds
            &&& t.randomness.len() == s.randomness.len() == start + k
            &&& forall|j: int| 0 <= j < k ==> #[trigger] t.randomness[start + j] == point[k - 1 - j]
            &&& forall|i: int|
                0 <= i < s.randomness.len() && !(start <= i < start + k)
                    ==> #[trigger] t.randomness[i] == s.randomness[i]
        }),
{
    reveal(after_final);
}

/// A round keeps the state honest.
pub proof fn law_round_honest(s: RoundView, config: &WhirConfig, round: nat, replies: RoundReplies)
    requires
        config.usable(),
        round < config.rounds(),
        honest(s, config, round),
        replies.answers(config, round),
    ensures
        honest(after_round(s, config, round, replies), config, round + 1),
{
    law_round_sized(s, config, round, replies);
    reveal(after_round);
    let n = config.variables_after(round);
    config.lemma_variables(round);
    lemma_folded(s, config, round);
    law_round_claim(s, config, round, replies);
    let v = round_sumcheck(s, config, round, replies);
    law_bind_all_holds(v, replies.folds, n);
    law_bind_all_is_fold(v, s.folded(), replies.folds, n);
}

/// An honest prover is honest after every round.
pub proof fn law_state_honest(
    config: &WhirConfig,
    cs: Seq<ConstraintView>,
    witness: &Witness,
    init: InitReplies,
    rounds: Seq<RoundReplies>,
)
    requires
        config.usable(),
        honest_witness(config, cs, witness),
        init.answers(config),
        rounds.len() <= config.rounds(),
        forall|k: int| 0 <= k < rounds.len() ==> (#[trigger] rounds[k]).answers(config, k as nat),
    ensures
        honest(state_after(config, cs, witness, init, rounds), config, rounds.len()),
    decreases rounds.len(),
{
    if rounds.len() == 0 {
        law_init_honest(config, cs, witness, init);
    } else {
        let before = rounds.drop_last();
        assert forall|k: int| 0 <= k < before.len() implies (#[trigger] before[k]).answers(
            config,
            k as nat,
        ) by {
            assert(before[k] == rounds[k]);
        }
        law_state_honest(config, cs, witness, init, before);
        assert(rounds[rounds.len() - 1].answers(config, before.len()));
        law_round_honest(
            state_after(config, cs, witness, init, before),
            config,
            before.len(),
            rounds.last(),
        );
    }
}

// The random point.

/// The challenges of the first rounds, in the order in which they were received, are the first
/// entries of the randomness; setting the last variables of the committed polynomial to them
/// gives the folded polynomial.
pub proof fn law_folded_by_randomness(
    config: &WhirConfig,
    cs: Seq<ConstraintView>,
    witness: &Witness,
    init: InitReplies,
    rounds: Seq<RoundReplies>,
)
    requires
        config.usable(),
        init.answers(config),
        rounds.len() <= config.rounds(),
        forall|k: int| 0 <= k < rounds.len() ==> (#[trigger] rounds[k]).answers(config, k as nat),
    ensures
        ({
            let s = state_after(config, cs, witness, init, rounds);
            let done = s.randomness.take(config.folding_factor.total(rounds.len()) as int);
            &&& s.randomness.len() == config.variables()
            &&& s.folded() == fold(lift_all(witness.polynomial@), done.reverse())
        }),
    decreases rounds.len(),
{
    config.lemma_variables(rounds.len());
    lemma_domain(config, rounds.len());
    let s = state_after(config, cs, witness, init, rounds);
    let c = lift_all(witness.polynomial@);
    let total = config.folding_factor.total(rounds.len());
    if rounds.len() == 0 {
        reveal(after_init);
        assert(s.randomness.take(total as int) =~= init.folds);
    } else {
        reveal(after_round);
        let before = rounds.drop_last();
        let k = before.len();
        assert forall|i: int| 0 <= i < before.len() implies (#[trigger] before[i]).answers(
            config,
            i as nat,
        ) by {
            assert(before[i] == rounds[i]);
        }
        law_folded_by_randomness(config, cs, witness, init, before);
        config.lemma_variables(k);
        lemma_domain(config, k);
        let p = state_after(config, cs, witness, init, before);
        let folds = rounds.last().folds;
        assert(rounds[rounds.len() - 1].answers(config, k));
        let done = p.randomness.take(config.folding_factor.total(k) as int);
        assert(s.randomness.take(total as int) =~= done + folds);
        assert((done + folds).reverse() =~= folds.reverse() + done.reverse());
        law_fold_compose(c, folds.reverse(), done.reverse());
    }
}

/// The random point of the proof is the one at which folding, over all rounds, evaluates the
/// committed polynomial: its value there is that of the last polynomial, which is sent, at the
/// challenges of the final sumcheck.
pub proof fn law_random_point(
    config: &WhirConfig,
    cs: Seq<ConstraintView>,
    witness: &Witness,
    replies: Replies,
)
    requires
        config.usable(),
        replies.answers(config),
    ensures
        ({
            let sent = state_after(config, cs, witness, replies.init, replies.rounds).folded();
            let point = final_state(config, cs, witness, replies).randomness.reverse();
            &&& point.len() == config.variables()
            &&& evaluate(lift_all(witness.polynomial@), point) == evaluate(
                sent,
                replies.last.folds.reverse(),
            )
        }),
{
    reveal(after_final);
    let n = config.rounds();
    let s = state_after(config, cs, witness, replies.init, replies.rounds);
    let c = lift_all(witness.polynomial@);
    law_folded_by_randomness(config, cs, witness, replies.init, replies.rounds);
    config.lemma_variables(n);
    lemma_domain(config, n);
    let total = config.folding_factor.total(n);
    let done = s.randomness.take(total as int);
    let folds = replies.last.folds;
    let all = final_state(config, cs, witness, replies).randomness;
    assert(all =~= done + folds);
    assert(all.reverse() =~= folds.reverse() + done.reverse());
    law_fold_compose(c, folds.reverse(), done.reverse());
}

proof fn lemma_zeros_canonical(n: nat)
    ensures
        all_canonical(zeros(n)),
{
}

/// At the end of an honest proof of a statement, the claim of the sumcheck is that the value of
/// the committed polynomial at the random point, times the last weight, is the last sum; and that
/// is true.
pub proof fn law_complete(
    config: &WhirConfig,
    cs: Seq<ConstraintView>,
    witness: &Witness,
    replies: Replies,
)
    requires
        config.usable(),
        honest_witness(config, cs, witness),
        replies.answers(config),
    ensures
        ({
            let s = state_after(config, cs, witness, replies.init, replies.rounds);
            let v = final_sumcheck(s, s.folded()).bind_all(replies.last.folds);
            let point = final_state(config, cs, witness, replies).randomness.reverse();
            &&& v.p.len() == 1
            &&& v.w.len() == 1
            &&& v.p[0] == evaluate(lift_all(witness.polynomial@), point)
            &&& v.sum == v.p[0].times(v.w[0])
        }),
{
    let n = config.rounds();
    let s = state_after(config, cs, witness, replies.init, replies.rounds);
    let m = config.variables_after(n);
    let v0 = final_sumcheck(s, s.folded());
    let folds = replies.last.folds;
    law_state_honest(config, cs, witness, replies.init, replies.rounds);
    config.lemma_variables(n);
    lemma_domain(config, n);
    lemma_folded(s, config, n);
    if s.sumcheck is None {
        lemma_dot_zeros(hypercube(s.folded()));
        lemma_zeros_canonical(v0.w.len());
    }
    law_bind_all_holds(v0, folds, m);
    law_bind_all_is_fold(v0, s.folded(), folds, m);
    law_random_point(config, cs, witness, replies);
    lemma2_to64();
    let v = v0.bind_all(folds);
    lemma_fold_len(s.folded(), folds.reverse(), m);
    lemma_hypercube_len(fold(s.folded(), folds.reverse()), 0);
    assert(dot(v.p.skip(1), v.w.skip(1)) == Ext::zero_spec());
    lemma_canonical(v.p[0], v.w[0]);
    lemma_zero(v.p[0].times(v.w[0]));
}

// The openings.

/// The queries of a round; behind the last one come those of the final round.
pub open spec fn queried(config: &WhirConfig, replies: Replies, round: nat) -> Seq<usize> {
    if round < replies.rounds.len() {
        replies.rounds[round as int].indices(config, round)
    } else {
        replies.last.indices(config)
    }
}

/// What was opened after some rounds.
proof fn lemma_openings(
    config: &WhirConfig,
    cs: Seq<ConstraintView>,
    witness: &Witness,
    init: InitReplies,
    rounds: Seq<RoundReplies>,
)
    ensures
        ({
            let s = state_after(config, cs, witness, init, rounds);
            &&& s.base_tree == base_tree_view(witness.prover_data)
            &&& s.ext_tree is Some <==> rounds.len() > 0
            &&& s.merkle_proofs.len() == if rounds.len() == 0 {
                0
            } else {
                rounds.len() - 1
            }
            &&& rounds.len() > 0 ==> s.commitment_proof == Some(
                s.base_tree.open(rounds[0].indices(config, 0)),
            )
            &&& forall|k: int|
                0 <= k < rounds.len() - 1 ==> #[trigger] s.merkle_proofs[k] == state_after(
                    config,
                    cs,
                    witness,
                    init,
                    rounds.take(k + 1),
                ).ext_tree.unwrap().open(rounds[k + 1].indices(config, (k + 1) as nat))
        }),
    decreases rounds.len(),
{
    let s = state_after(config, cs, witness, init, rounds);
    if rounds.len() == 0 {
        reveal(after_init);
    } else {
        reveal(after_round);
        let before = rounds.drop_last();
        lemma_openings(config, cs, witness, init, before);
        assert forall|k: int| 0 <= k < rounds.len() - 1 implies #[trigger] s.merkle_proofs[k]
            == state_after(config, cs, witness, init, rounds.take(k + 1)).ext_tree.unwrap().open(
            rounds[k + 1].indices(config, (k + 1) as nat),
        ) by {
            if k < before.len() - 1 {
                assert(before.take(k + 1) =~= rounds.take(k + 1));
            } else {
                assert(rounds.take(k + 1) =~= before);
            }
        }
    }
}

/// Every commitment is opened once, at the queries of the round after it: the first one at those
/// of the first round, and the one of each round at those of the next round.
pub proof fn law_openings(
    config: &WhirConfig,
    cs: Seq<ConstraintView>,
    witness: &Witness,
    replies: Replies,
)
    requires
        replies.answers(config),
    ensures
        ({
            let p = proof_of(config, cs, witness, replies);
            &&& p.commitment_merkle_paths == base_tree_view(
                witness.prover_data,
            ).open(queried(config, replies, 0))
            &&& p.merkle_paths.len() == config.rounds()
            &&& forall|k: int|
                0 <= k < config.rounds() ==> #[trigger] p.merkle_paths[k] == state_after(
                    config,
                    cs,
                    witness,
                    replies.init,
                    replies.rounds.take(k + 1),
                ).ext_tree.unwrap().open(queried(config, replies, (k + 1) as nat))
        }),
{
    reveal(after_final);
    let rounds = replies.rounds;
    lemma_openings(config, cs, witness, replies.init, rounds);
    let p = proof_of(config, cs, witness, replies);
    assert forall|k: int| 0 <= k < config.rounds() implies #[trigger] p.merkle_paths[k]
        == state_after(
        config,
        cs,
        witness,
        replies.init,
        rounds.take(k + 1),
    ).ext_tree.unwrap().open(queried(config, replies, (k + 1) as nat)) by {
        if k == rounds.len() - 1 {
            assert(rounds.take(k + 1) =~= rounds);
        }
    }
}

// The weight at the end.

/// The value at `point` of the combination by the powers of `gamma` of the weights.
pub open spec fn combined_value(ws: Seq<Seq<Ext>>, gamma: Ext, point: Seq<Ext>) -> Ext {
    dot(powers(gamma, ws.len()), extend_all(ws, point))
}

/// The weights of the constraints of a round.
pub open spec fn round_vectors(config: &WhirConfig, round: nat, replies: RoundReplies) -> Seq<
    Seq<Ext>,
> {
    eq_vectors(round_points(config, round, replies))
}

/// The value of all weights after the given rounds, with the variables that are left at `point`:
/// those of the statement and of each round, each at the point that its variables were set to.
pub open spec fn weight_at(
    config: &WhirConfig,
    cs: Seq<ConstraintView>,
    witness: &Witness,
    init: InitReplies,
    rounds: Seq<RoundReplies>,
    point: Seq<Ext>,
) -> Ext
    decreases rounds.len(),
{
    if rounds.len() > 0 {
        let last = rounds.last();
        let whole = point + last.folds.reverse();
        weight_at(config, cs, witness, init, rounds.drop_last(), whole).plus(
            combined_value(
                round_vectors(config, (rounds.len() - 1) as nat, last),
                last.gamma,
                whole,
            ),
        )
    } else if config.initial_statement {
        combined_value(
            vectors(all_constraints(config, cs, witness)),
            init.gamma,
            point + init.folds.reverse(),
        )
    } else {
        Ext::zero_spec()
    }
}

/// The weights of a round have one entry for each vertex of the hypercube.
proof fn lemma_round_vectors(config: &WhirConfig, round: nat, replies: RoundReplies)
    ensures
        forall|i: int|
            0 <= i < round_vectors(config, round, replies).len() ==> (#[trigger] round_vectors(
                config,
                round,
                replies,
            )[i]).len() == pow2(config.variables_after(round)),
{
    let ws = round_vectors(config, round, replies);
    let n = config.variables_after(round);
    let indices = replies.indices(config, round);
    let points = round_points(config, round, replies);
    assert forall|i: int| 0 <= i < ws.len() implies (#[trigger] ws[i]).len() == pow2(n) by {
        if i < replies.ood.len() {
            lemma_expand_len(replies.ood[i], n);
        } else {
            let index = indices[i - replies.ood.len()];
            lemma_expand_len(
                root_of_unity(config.log_folded(round)).power(index as nat),
                n,
            );
        }
        lemma_eq_weights_len(points[i]);
    }
}

/// The weights of the running sumcheck, and their size, after the given rounds.
proof fn lemma_weight(
    config: &WhirConfig,
    cs: Seq<ConstraintView>,
    witness: &Witness,
    init: InitReplies,
    rounds: Seq<RoundReplies>,
    point: Seq<Ext>,
)
    requires
        config.usable(),
        witness.polynomial@.len() == pow2(config.variables()),
        forall|i: int| 0 <= i < cs.len() ==> (#[trigger] cs[i]).0.fits(config.variables()),
        init.answers(config),
        rounds.len() <= config.rounds(),
        forall|k: int| 0 <= k < rounds.len() ==> (#[trigger] rounds[k]).answers(config, k as nat),
        point.len() == config.variables_after(rounds.len()),
    ensures
        ({
            let s = state_after(config, cs, witness, init, rounds);
            let weight = weight_at(config, cs, witness, init, rounds, point);
            &&& s.folded().len() == pow2(config.variables_after(rounds.len()))
            &&& weight.canonical()
            &&& match s.sumcheck {
                Some(v) => v.sized(config.variables_after(rounds.len())) && extend(v.w, point)
                    == weight,
                None => weight == Ext::zero_spec(),
            }
        }),
    decreases rounds.len(),
{
    let s = state_after(config, cs, witness, init, rounds);
    config.lemma_variables(rounds.len());
    lemma_domain(config, rounds.len());
    if rounds.len() == 0 {
        reveal(after_init);
        let n = config.variables();
        let whole = point + init.folds.reverse();
        lemma_fold_len(s.coeffs, s.folding, n);
        if config.initial_statement {
            let all = all_constraints(config, cs, witness);
            let ood = ood_constraints(witness.ood_points@, witness.ood_answers@, n);
            let ws = vectors(all);
            let v = init_sumcheck(config, cs, witness, init);
            assert forall|i: int| 0 <= i < ws.len() implies (#[trigger] ws[i]).len() == pow2(
                n,
            ) by {
                if i < ood.len() {
                    lemma_expand_len(witness.ood_points@[i], n);
                    lemma_eq_weights_len(expand(witness.ood_points@[i], n));
                    assert(all[i] == ood[i]);
                } else {
                    assert(all[i] == cs[i - ood.len()]);
                    assert(cs[i - ood.len()].0.fits(n));
                    if let WeightsView::Evaluation(p) = all[i].0 {
                        lemma_eq_weights_len(p);
                    }
                }
            }
            lemma_hypercube_len(s.coeffs, n);
            lemma_weighted_sum_len(ws, powers(init.gamma, all.len()), pow2(n));
            lemma_bind_all_sized(v, init.folds, n);
            law_bind_all_weight(v, init.folds, point);
            law_extend_combination(ws, powers(init.gamma, all.len()), whole);
            lemma_dot_canonical(powers(init.gamma, all.len()), extend_all(ws, whole));
        }
    } else {
        reveal(after_round);
        let before = rounds.drop_last();
        let round = before.len();
        let last = rounds.last();
        let whole = point + last.folds.reverse();
        assert forall|k: int| 0 <= k < before.len() implies (#[trigger] before[k]).answers(
            config,
            k as nat,
        ) by {
            assert(before[k] == rounds[k]);
        }
        assert(rounds[rounds.len() - 1].answers(config, round));
        config.lemma_variables(round);
        lemma_domain(config, round);
        lemma_weight(config, cs, witness, init, before, whole);
        let p = state_after(config, cs, witness, init, before);
        let n = config.variables_after(round);
        let ws = round_vectors(config, round, last);
        let r = powers(last.gamma, ws.len());
        let v = round_sumcheck(p, config, round, last);
        let earlier = weight_at(config, cs, witness, init, before, whole);
        let added = weighted_sum(ws, r, pow2(n));
        lemma_round_vectors(config, round, last);
        lemma_weighted_sum_len(ws, r, pow2(n));
        law_extend_combination(ws, r, whole);
        lemma_dot_canonical(r, extend_all(ws, whole));
        lemma_canonical(earlier, dot(r, extend_all(ws, whole)));
        lemma_hypercube_len(p.folded(), n);
        match p.sumcheck {
            Some(u) => {
                let one = Ext::one_spec();
                assert(vscale(one, added) =~= added) by {
                    assert forall|i: int| 0 <= i < added.len() implies #[trigger] vscale(
                        one,
                        added,
                    )[i] == added[i] by {
                        lemma_one(added[i]);
                    }
                }
                lemma_extend_linear(u.w, one, added, whole);
                lemma_one(extend(added, whole));
            },
            None => {
                lemma_zero(extend(added, whole));
            },
        }
        lemma_bind_all_sized(v, last.folds, n);
        law_bind_all_weight(v, last.folds, point);
        lemma_fold_len(s.coeffs, s.folding, n);
    }
}

/// The last weight of a proof is the sum, over the statement and over each round, of the combined
/// values of its weights at the point that its variables were set to. For the statement, that
/// point is the random point of the proof, at which the proof gives the values of the linear
/// weights.
pub proof fn law_last_weight(
    config: &WhirConfig,
    cs: Seq<ConstraintView>,
    witness: &Witness,
    replies: Replies,
)
    requires
        config.usable(),
        witness.polynomial@.len() == pow2(config.variables()),
        forall|i: int| 0 <= i < cs.len() ==> (#[trigger] cs[i]).0.fits(config.variables()),
        replies.answers(config),
    ensures
        ({
            let s = state_after(config, cs, witness, replies.init, replies.rounds);
            let v = final_sumcheck(s, s.folded()).bind_all(replies.last.folds);
            &&& v.w.len() == 1
            &&& v.w[0] == weight_at(
                config,
                cs,
                witness,
                replies.init,
                replies.rounds,
                replies.last.folds.reverse(),
            )
        }),
{
    let n = config.rounds();
    let m = config.variables_after(n);
    let folds = replies.last.folds;
    let point = folds.reverse();
    let s = state_after(config, cs, witness, replies.init, replies.rounds);
    let v = final_sumcheck(s, s.folded());
    config.lemma_variables(n);
    lemma_domain(config, n);
    lemma_weight(config, cs, witness, replies.init, replies.rounds, point);
    lemma2_to64();
    lemma_hypercube_len(s.folded(), m);
    if s.sumcheck is None {
        lemma_extend_zeros(point);
    }
    lemma_bind_all_sized(v, folds, m);
    law_bind_all_weight(v, folds, Seq::empty());
    assert(Seq::<Ext>::empty() + point =~= point);
}

// The steps.

/// None of the steps is a refusal.
pub open spec fn accepted(trace: Seq<Entry>) -> bool {
    forall|i: int| 0 <= i < trace.len() ==> !(#[trigger] trace[i] is Refused)
}

/// The steps of a sumcheck are neither commitments nor refusals.
proof fn lemma_sumcheck_steps(v: SumcheckView, rs: Seq<Ext>, bits: PowBits)
    ensures
        accepted(v.trace(rs, bits)),
        forall|i: int|
            0 <= i < v.trace(rs, bits).len() ==> !(#[trigger] v.trace(rs, bits)[i] is Digest),
    decreases rs.len(),
{
    if rs.len() > 0 {
        lemma_sumcheck_steps(v, rs.drop_last(), bits);
    }
}

proof fn lemma_accepted(
    config: &WhirConfig,
    cs: Seq<ConstraintView>,
    witness: &Witness,
    init: InitReplies,
    rounds: Seq<RoundReplies>,
)
    ensures
        accepted(trace_after(config, cs, witness, init, rounds)),
    decreases rounds.len(),
{
    if rounds.len() == 0 {
        reveal(init_trace);
        lemma_sumcheck_steps(
            init_sumcheck(config, cs, witness, init),
            init.folds,
            config.starting_folding_pow_bits,
        );
    } else {
        reveal(round_trace);
        let k = (rounds.len() - 1) as nat;
        lemma_accepted(config, cs, witness, init, rounds.drop_last());
        lemma_sumcheck_steps(
            round_sumcheck(
                state_after(config, cs, witness, init, rounds.drop_last()),
                config,
                k,
                rounds.last(),
            ),
            rounds.last().folds,
            config.round_parameters@[k as int].folding_pow_bits,
        );
    }
}

/// The steps of a whole proof hold no refusal, while those of a proof that was ended by one end in
/// it: a proof succeeds if and only if nothing that it asks for is refused, and otherwise fails
/// with the error of the first refusal, after which it asks for nothing.
pub proof fn law_refusals(
    config: &WhirConfig,
    cs: Seq<ConstraintView>,
    witness: &Witness,
    replies: Replies,
    before: Seq<Entry>,
    now: Seq<Entry>,
    e: ProofError,
)
    ensures
        accepted(prove_trace(config, cs, witness, replies)),
        stopped(now, before, prove_trace(config, cs, witness, replies), e) ==> {
            let added = now.skip(before.len() as int);
            &&& now == before + added
            &&& accepted(added.drop_last())
            &&& added.last() matches Entry::Refused(_, error) && error == e
        },
{
    reveal(final_trace);
    let trace = prove_trace(config, cs, witness, replies);
    lemma_accepted(config, cs, witness, replies.init, replies.rounds);
    let s = state_after(config, cs, witness, replies.init, replies.rounds);
    lemma_sumcheck_steps(
        final_sumcheck(s, s.folded()),
        replies.last.folds,
        config.final_folding_pow_bits,
    );
    if stopped(now, before, trace, e) {
        let added = now.skip(before.len() as int);
        assert(now =~= before + added);
        assert(added.drop_last() =~= trace.take(taken(now, before)));
    }
}

} // verus!
