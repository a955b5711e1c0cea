//! The parameters of a proof: how much is folded in each round, how many queries are answered and
//! how much work is done.
use crate::domain::Domain;
use crate::fiat_shamir::PowBits;
use vstd::prelude::*;

verus! {

/// How many variables are folded in each round.
#[derive(Clone, Copy, Debug, PartialEq, Eq, Structural)]
pub enum FoldingFactor {
    /// The same number in every round.
    Constant(usize),
    /// One number in the first round, another in all later rounds.
    ConstantFromSecondRound(usize, usize),
}

impl FoldingFactor {
    /// The number of variables that are folded in the round with the given index.
    pub open spec fn at(self, round: nat) -> nat {
        match self {
            FoldingFactor::Constant(factor) => factor as nat,
            FoldingFactor::ConstantFromSecondRound(first, factor) => if round == 0 {
                first as nat
            } else {
                factor as nat
            },
        }
    }

    /// The number of variables that are folded up to and including the round with the given index.
    pub open spec fn total(self, round: nat) -> nat
        decreases round,
    {
        if round == 0 {
            self.at(0)
        } else {
            self.total((round - 1) as nat) + self.at(round)
        }
    }

    pub fn at_round(&self, round: usize) -> (n: usize)
        ensures
            n == self.at(round as nat),
    {
        match self {
            FoldingFactor::Constant(factor) => *factor,
            FoldingFactor::ConstantFromSecondRound(first, factor) => {
                if round == 0 {
                    *first
                } else {
                    *factor
                }
            },
        }
    }

    pub fn total_number(&self, n_rounds: usize) -> (n: usize)
        requires
            self.total(n_rounds as nat) <= usize::MAX,
            n_rounds < usize::MAX,
        ensures
            n == self.total(n_rounds as nat),
    {
        proof {
            self.lemma_total(n_rounds as nat);
        }
        match self {
            FoldingFactor::Constant(factor) => *factor * (n_rounds + 1),
            FoldingFactor::ConstantFromSecondRound(first, factor) => *first + *factor * n_rounds,
        }
    }

    /// The total in closed form.
    pub proof fn lemma_total(self, round: nat)
        ensures
            self.total(round) == match self {
                FoldingFactor::Constant(factor) => factor * (round + 1),
                FoldingFactor::ConstantFromSecondRound(first, factor) => first + factor * round,
            },
        decreases round,
    {
        if round > 0 {
            self.lemma_total((round - 1) as nat);
        }
        match self {
            FoldingFactor::Constant(factor) => {
                assert(factor * (round + 1) == factor * round + factor) by (nonlinear_arith);
                assert(round == 0 ==> factor * round == 0) by (nonlinear_arith);
            },
            FoldingFactor::ConstantFromSecondRound(first, factor) => {
                assert(round > 0 ==> factor * round == factor * (round - 1) + factor)
                    by (nonlinear_arith);
                assert(round == 0 ==> factor * round == 0) by (nonlinear_arith);
            },
        }
    }

    pub proof fn lemma_total_monotone(self, r: nat, s: nat)
        requires
            r <= s,
        ensures
            self.total(r) <= self.total(s),
            self.at(s) <= self.total(s),
        decreases s,
    {
        if r < s {
            self.lemma_total_monotone(r, (s - 1) as nat);
        }
    }
}

/// The parameters of one round.
#[derive(Clone, Copy, Debug, PartialEq, Eq, Structural)]
pub struct RoundConfig {
    /// The work that is done after the queries were answered.
    pub pow_bits: PowBits,
    /// The work that is done in each round of the sumcheck.
    pub folding_pow_bits: PowBits,
    /// The number of queries.
    pub num_queries: usize,
    /// The number of samples out of the domain.
    pub ood_samples: usize,
}

/// The size of the polynomials that are proved about.
#[derive(Clone, Copy, Debug, PartialEq, Eq, Structural)]
pub struct MultivariateParameters {
    pub num_variables: usize,
}

/// The parameters of a proof.
#[derive(Debug)]
pub struct WhirConfig {
    pub mv_parameters: MultivariateParameters,
    pub folding_factor: FoldingFactor,
    /// The domain that the polynomial is committed over.
    pub starting_domain: Domain,
    /// The number of samples out of the domain at the commitment.
    pub committment_ood_samples: usize,
    /// A statement is proved, as opposed to the degree alone.
    pub initial_statement: bool,
    pub starting_folding_pow_bits: PowBits,
    pub round_parameters: Vec<RoundConfig>,
    pub final_queries: usize,
    pub final_pow_bits: PowBits,
    pub final_sumcheck_rounds: usize,
    pub final_folding_pow_bits: PowBits,
}

/// The number of bytes that an index below `2^bits` is drawn from.
pub open spec fn bytes_per_query(bits: nat) -> nat {
    (bits + 7) / 8
}

/// Whether a product is a machine number.
fn product_fits(a: usize, b: usize) -> (r: bool)
    ensures
        r == (a * b <= usize::MAX),
{
    a.checked_mul(b).is_some()
}

impl WhirConfig {
    pub open spec fn rounds(&self) -> nat {
        self.round_parameters@.len()
    }

    /// The number of variables of the polynomials.
    pub open spec fn variables(&self) -> nat {
        self.mv_parameters.num_variables as nat
    }

    /// The number of variables that are left when the round with the given index has folded.
    pub open spec fn variables_after(&self, round: nat) -> nat {
        (self.variables() - self.folding_factor.total(round)) as nat
    }

    /// The size, as an exponent of two, of the domain that is queried in the given round.
    pub open spec fn log_domain(&self, round: nat) -> nat {
        (self.starting_domain.log_size - round) as nat
    }

    /// The number of queries of a round; behind the last one come those of the final round.
    pub open spec fn queries(&self, round: nat) -> nat {
        if round < self.rounds() {
            self.round_parameters@[round as int].num_queries as nat
        } else {
            self.final_queries as nat
        }
    }

    /// The number of bytes that the queries of a round are drawn from is a machine number.
    pub open spec fn queries_fit(&self, round: nat) -> bool {
        self.queries(round) * bytes_per_query(
            (self.log_domain(round) - self.folding_factor.at(round)) as nat,
        ) <= usize::MAX
    }

    /// The rounds and the final sumcheck together fold all variables.
    pub open spec fn balanced(&self) -> bool {
        self.variables() == self.folding_factor.total(self.rounds()) + self.final_sumcheck_rounds
    }

    /// A first round that starts the sumcheck, because no statement did, samples and queries at
    /// two places or more.
    pub open spec fn start_constrained(&self) -> bool {
        self.initial_statement || self.rounds() == 0 || self.round_parameters@[0].ood_samples
            + self.round_parameters@[0].num_queries >= 2
    }

    /// In each round there are at least two leaves to query, and the number of bytes that the
    /// queries are drawn from is a machine number; the polynomial of each round fits into the
    /// domain of the next one; and there is something to start the sumcheck with.
    pub open spec fn supported(&self) -> bool {
        &&& self.starting_domain.wf()
        &&& self.start_constrained()
        &&& forall|r: nat|
            r <= self.rounds() ==> #[trigger] self.folding_factor.at(r) + r
                < self.starting_domain.log_size
        &&& forall|r: nat| r <= self.rounds() ==> #[trigger] self.queries_fit(r)
        &&& forall|r: nat|
            r < self.rounds() ==> #[trigger] self.variables_after(r) <= self.log_domain(r + 1)
    }

    /// The parameters are good for proofs about polynomials that fit into the first domain.
    pub open spec fn usable(&self) -> bool {
        self.supported() && self.balanced() && self.variables() <= self.log_domain(0)
    }

    /// Whether the parameters are good for proofs.
    pub fn is_usable(&self) -> (b: bool)
        ensures
            b == self.usable(),
    {
        let n: usize = self.n_rounds();
        let log_size: usize = self.starting_domain.log_size;
        let variables: usize = self.mv_parameters.num_variables;
        let f: FoldingFactor = self.folding_factor;
        if !self.starting_domain.is_supported() || variables > log_size {
            return false;
        }
        if !self.initial_statement && n > 0 {
            let (samples, queries) = (
                self.round_parameters[0].ood_samples,
                self.round_parameters[0].num_queries,
            );
            if samples < 2 && queries < 2 && samples + queries < 2 {
                return false;
            }
        }
        let mut left: usize = variables;
        let mut r: usize = 0;
        while r < n
            invariant
                n == self.rounds(),
                log_size == self.starting_domain.log_size,
                log_size <= 33,
                variables == self.variables(),
                f == self.folding_factor,
                0 <= r <= n,
                left == variables - if r == 0 {
                    0
                } else {
                    f.total((r - 1) as nat)
                },
                forall|k: nat| k < r ==> #[trigger] f.at(k) + k < log_size,
                forall|k: nat| k < r ==> #[trigger] self.queries_fit(k),
                forall|k: nat|
                    k < r ==> #[trigger] self.variables_after(k) <= self.log_domain(k + 1),
            decreases n - r,
        {
            let factor: usize = f.at_round(r);
            if r >= log_size || factor >= log_size - r {
                assert(!(f.at(r as nat) + r < log_size));
                return false;
            }
            let queries: usize = self.round_parameters[r].num_queries;
            assert(queries == self.queries(r as nat));
            if !product_fits(queries, (log_size - r - factor + 7) / 8) {
                assert(!self.queries_fit(r as nat));
                return false;
            }
            if factor > left {
                proof {
                    f.lemma_total_monotone(r as nat, n as nat);
                }
                return false;
            }
            left = left - factor;
            if left > log_size - r - 1 {
                assert(!(self.variables_after(r as nat) <= self.log_domain(r as nat + 1)));
                return false;
            }
            r = r + 1;
        }
        let factor: usize = f.at_round(n);
        if n >= log_size || factor >= log_size - n {
            assert(!(f.at(n as nat) + n < log_size));
            return false;
        }
        if !product_fits(self.final_queries, (log_size - n - factor + 7) / 8) {
            assert(!self.queries_fit(n as nat));
            return false;
        }
        factor <= left && left - factor == self.final_sumcheck_rounds
    }

    /// The number of rounds before the final one.
    pub fn n_rounds(&self) -> (n: usize)
        ensures
            n == self.rounds(),
    {
        self.round_parameters.len()
    }
}

/// What is folded in a round, and what is left after it.
pub proof fn law_folding(config: &WhirConfig, round: nat)
    ensures
        config.folding_factor matches FoldingFactor::Constant(factor) ==> {
            &&& config.folding_factor.at(round) == factor
            &&& factor * (round + 1) <= config.mv_parameters.num_variables
                ==> config.variables_after(round) == config.mv_parameters.num_variables - factor
                * (round + 1)
        },
        config.folding_factor matches FoldingFactor::ConstantFromSecondRound(first, factor) ==> {
            &&& config.folding_factor.at(round) == if round == 0 {
                first
            } else {
                factor
            }
            &&& first + factor * round <= config.mv_parameters.num_variables
                ==> config.variables_after(round) == config.mv_parameters.num_variables - first
                - factor * round
        },
{
    config.folding_factor.lemma_total(round);
}

/// When parameters are good for proofs: what the rounds fold, the queries that are drawn from
/// whole bytes, and the sizes of the polynomials and of their domains, round by round.
pub proof fn law_usable(config: &WhirConfig)
    ensures
        config.usable() <==> {
            let n = config.round_parameters@.len();
            let f = config.folding_factor;
            let size = config.starting_domain.log_size;
            let variables = config.mv_parameters.num_variables;
            &&& config.starting_domain.wf()
            &&& variables <= size
            &&& variables == f.total(n) + config.final_sumcheck_rounds
            &&& config.initial_statement || n == 0 || config.round_parameters@[0].ood_samples
                + config.round_parameters@[0].num_queries >= 2
            &&& forall|r: nat| r <= n ==> #[trigger] f.at(r) + r < size
            &&& forall|r: nat|
                r < n ==> #[trigger] config.round_parameters@[r as int].num_queries * ((size - r
                    - f.at(r) + 7) / 8) <= usize::MAX
            &&& config.final_queries * ((size - n - f.at(n) + 7) / 8) <= usize::MAX
            &&& forall|r: nat| r < n ==> variables - #[trigger] f.total(r) <= size - r - 1
        },
{
    let n = config.round_parameters@.len();
    let f = config.folding_factor;
    let size = config.starting_domain.log_size;
    let variables = config.mv_parameters.num_variables;
    let sized = forall|r: nat| r <= n ==> #[trigger] f.at(r) + r < size;
    let fit = {
        &&& forall|r: nat|
            r < n ==> #[trigger] config.round_parameters@[r as int].num_queries * ((size - r
                - f.at(r) + 7) / 8) <= usize::MAX
        &&& config.final_queries * ((size - n - f.at(n) + 7) / 8) <= usize::MAX
    };
    let left = forall|r: nat| r < n ==> variables - #[trigger] f.total(r) <= size - r - 1;
    if sized && config.balanced() {
        assert forall|r: nat| r < n implies #[trigger] f.total(r) <= variables && r < size by {
            f.lemma_total_monotone(r, n);
            assert(f.at(r) + r < size);
        }
        assert forall|r: nat| r <= n implies (#[trigger] config.queries_fit(r) <==> if r < n {
            config.round_parameters@[r as int].num_queries * ((size - r - f.at(r) + 7) / 8)
                <= usize::MAX
        } else {
            config.final_queries * ((size - n - f.at(n) + 7) / 8) <= usize::MAX
        }) by {
            assert(f.at(r) + r < size);
        }
        assert forall|r: nat| r < n implies (#[trigger] config.variables_after(r)
            <= config.log_domain(r + 1) <==> variables - f.total(r) <= size - r - 1) by {
            assert(f.total(r) <= variables && r < size);
        }
        if config.usable() {
            assert forall|r: nat|
                r < n implies #[trigger] config.round_parameters@[r as int].num_queries * ((size - r
                - f.at(r) + 7) / 8) <= usize::MAX by {
                assert(config.queries_fit(r));
            }
            assert(config.queries_fit(n));
            assert forall|r: nat| r < n implies variables - #[trigger] f.total(r) <= size - r
                - 1 by {
                assert(config.variables_after(r) <= config.log_domain(r + 1));
            }
        }
        if fit && left {
            assert forall|r: nat| r <= n implies #[trigger] config.queries_fit(r) by {
                if r < n {
                    assert(config.round_parameters@[r as int].num_queries * ((size - r - f.at(r)
                        + 7) / 8) <= usize::MAX);
                }
            }
        }
    }
}

} // verus!
