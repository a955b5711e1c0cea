//! A whole proof as a function of what the transcript sends back: its states, its steps, and what
//! is handed over.
use crate::fiat_shamir::Entry;
use crate::field::Ext;
use crate::poly::evals::extend;
use crate::whir::committer::Witness;
use crate::whir::parameters::WhirConfig;
use crate::whir::prover::round::{
    after_final, after_init, after_round, blank_final, blank_round, final_trace, init_trace,
    round_trace, FinalReplies, InitReplies, RoundReplies, RoundView,
};
use crate::whir::prover::whir_proof::WhirProofView;
use crate::whir::statement::{ConstraintView, WeightsView};
use vstd::prelude::*;

verus! {

/// What the transcript sends back in a proof.
#[verifier::ext_equal]
pub struct Replies {
    pub init: InitReplies,
    pub rounds: Seq<RoundReplies>,
    pub last: FinalReplies,
}

impl Replies {
    /// As many values are sent back as the proof asks for.
    pub open spec fn answers(self, config: &WhirConfig) -> bool {
        &&& self.init.answers(config)
        &&& self.rounds.len() == config.rounds()
        &&& forall|k: int|
            0 <= k < self.rounds.len() ==> (#[trigger] self.rounds[k]).answers(config, k as nat)
        &&& self.last.answers(config)
    }
}

/// The state after the given rounds.
pub open spec fn state_after(
    config: &WhirConfig,
    cs: Seq<ConstraintView>,
    witness: &Witness,
    init: InitReplies,
    rounds: Seq<RoundReplies>,
) -> RoundView
    decreases rounds.len(),
{
    if rounds.len() == 0 {
        after_init(config, cs, witness, init)
    } else {
        after_round(
            state_after(config, cs, witness, init, rounds.drop_last()),
            config,
            (rounds.len() - 1) as nat,
            rounds.last(),
        )
    }
}

/// The steps up to the end of the given rounds.
pub open spec fn trace_after(
    config: &WhirConfig,
    cs: Seq<ConstraintView>,
    witness: &Witness,
    init: InitReplies,
    rounds: Seq<RoundReplies>,
) -> Seq<Entry>
    decreases rounds.len(),
{
    if rounds.len() == 0 {
        init_trace(config, cs, witness, init)
    } else {
        trace_after(config, cs, witness, init, rounds.drop_last()) + round_trace(
            state_after(config, cs, witness, init, rounds.drop_last()),
            config,
            (rounds.len() - 1) as nat,
            rounds.last(),
        )
    }
}

/// The steps of a proof.
pub open spec fn prove_trace(
    config: &WhirConfig,
    cs: Seq<ConstraintView>,
    witness: &Witness,
    replies: Replies,
) -> Seq<Entry> {
    let s = state_after(config, cs, witness, replies.init, replies.rounds);
    trace_after(config, cs, witness, replies.init, replies.rounds) + final_trace(
        s,
        s.folded(),
        config,
        replies.last,
    )
}

/// The state at the end of a proof.
pub open spec fn final_state(
    config: &WhirConfig,
    cs: Seq<ConstraintView>,
    witness: &Witness,
    replies: Replies,
) -> RoundView {
    after_final(
        state_after(config, cs, witness, replies.init, replies.rounds),
        config,
        replies.last,
    )
}

/// The values at `point` of the linear weights among the constraints, in their order.
pub open spec fn linear_values(cs: Seq<ConstraintView>, point: Seq<Ext>) -> Seq<Ext>
    decreases cs.len(),
{
    if cs.len() == 0 {
        Seq::empty()
    } else {
        let rest = linear_values(cs.drop_last(), point);
        match cs.last().0 {
            WeightsView::Linear(weight) => rest.push(extend(weight, point)),
            WeightsView::Evaluation(_) => rest,
        }
    }
}

/// The proof that is handed over.
pub open spec fn proof_of(
    config: &WhirConfig,
    cs: Seq<ConstraintView>,
    witness: &Witness,
    replies: Replies,
) -> WhirProofView {
    let s = final_state(config, cs, witness, replies);
    WhirProofView {
        commitment_merkle_paths: s.commitment_proof.unwrap(),
        merkle_paths: s.merkle_proofs,
        statement_values_at_random_point: linear_values(s.constraints, s.randomness.reverse()),
    }
}

/// The replies of a proof whose first ones are given; the others are zeros.
pub open spec fn filled(
    config: &WhirConfig,
    init: InitReplies,
    rounds: Seq<RoundReplies>,
) -> Replies {
    Replies {
        init,
        rounds: Seq::new(
            config.rounds(),
            |k: int|
                if k < rounds.len() {
                    rounds[k]
                } else {
                    blank_round(config, k as nat)
                },
        ),
        last: blank_final(config),
    }
}

/// More rounds add steps.
pub proof fn lemma_trace_after_prefix(
    config: &WhirConfig,
    cs: Seq<ConstraintView>,
    witness: &Witness,
    init: InitReplies,
    rounds: Seq<RoundReplies>,
    k: int,
)
    requires
        0 <= k <= rounds.len(),
    ensures
        trace_after(config, cs, witness, init, rounds.take(k)).is_prefix_of(
            trace_after(config, cs, witness, init, rounds),
        ),
    decreases rounds.len(),
{
    if k == rounds.len() {
        assert(rounds.take(k) =~= rounds);
    } else {
        let rest = rounds.drop_last();
        lemma_trace_after_prefix(config, cs, witness, init, rest, k);
        assert(rest.take(k) =~= rounds.take(k));
        let a = trace_after(config, cs, witness, init, rounds.take(k));
        let b = trace_after(config, cs, witness, init, rest);
        let whole = trace_after(config, cs, witness, init, rounds);
        assert(whole.subrange(0, a.len() as int) =~= b.subrange(0, a.len() as int));
    }
}

/// The steps up to the end of the given rounds are the first of a whole proof.
pub proof fn lemma_filled(
    config: &WhirConfig,
    cs: Seq<ConstraintView>,
    witness: &Witness,
    init: InitReplies,
    rounds: Seq<RoundReplies>,
)
    requires
        init.answers(config),
        rounds.len() <= config.rounds(),
        forall|k: int| 0 <= k < rounds.len() ==> (#[trigger] rounds[k]).answers(config, k as nat),
    ensures
        filled(config, init, rounds).answers(config),
        trace_after(config, cs, witness, init, rounds).is_prefix_of(
            prove_trace(config, cs, witness, filled(config, init, rounds)),
        ),
{
    let replies = filled(config, init, rounds);
    lemma_trace_after_prefix(config, cs, witness, init, replies.rounds, rounds.len() as int);
    assert(replies.rounds.take(rounds.len() as int) =~= rounds);
    let a = trace_after(config, cs, witness, init, rounds);
    let b = trace_after(config, cs, witness, init, replies.rounds);
    let whole = prove_trace(config, cs, witness, replies);
    assert(whole.subrange(0, a.len() as int) =~= b.subrange(0, a.len() as int));
    assert forall|k: int| 0 <= k < replies.rounds.len() implies (
    #[trigger] replies.rounds[k]).answers(config, k as nat) by {
        if k < rounds.len() {
            assert(replies.rounds[k] == rounds[k]);
        }
    }
}

} // verus!
