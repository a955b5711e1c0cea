//! Whole proofs, and a verifier that replays their transcripts.
use p3_commit::{BatchOpeningRef, ExtensionMmcs, Mmcs};
use p3_field::extension::BinomialExtensionField;
use p3_field::{BasedVectorSpace, PrimeCharacteristicRing};
use p3_goldilocks::Goldilocks;
use p3_keccak::Keccak256Hash;
use p3_matrix::Dimensions;
use p3_merkle_tree::MerkleTreeMmcs;
use p3_symmetric::{CompressionFunctionFromHasher, SerializingHasher};
use whir_prover::domain::Domain;
use whir_prover::encoding::encode_base;
use whir_prover::fiat_shamir::{Message, PowBits, ProofError, ScriptedTranscript};
use whir_prover::field::{Ext, Felt, ORDER};
use whir_prover::merkle::open_base_rows;
use whir_prover::poly::coeffs::{CoefficientList, CoefficientStorage};
use whir_prover::poly::evals::{eq_weights_at, to_evaluations, EvaluationsList};
use whir_prover::poly::multilinear::MultilinearPoint;
use whir_prover::poly::vector::dot_product;
use whir_prover::whir::committer::CommitmentWriter;
use whir_prover::whir::parameters::{
    FoldingFactor, MultivariateParameters, RoundConfig, WhirConfig,
};
use whir_prover::whir::prover::round::RoundState;
use whir_prover::whir::prover::whir_proof::WhirProof;
use whir_prover::whir::prover::{Leafs, Proof, Prover};
use whir_prover::whir::statement::{Statement, Weights};

type E2 = BinomialExtensionField<Goldilocks, 2>;

type BaseMmcs = MerkleTreeMmcs<
    Goldilocks,
    u8,
    SerializingHasher<Keccak256Hash>,
    CompressionFunctionFromHasher<Keccak256Hash, 2, 32>,
    32,
>;

fn mmcs() -> BaseMmcs {
    let hash = SerializingHasher::new(Keccak256Hash {});
    BaseMmcs::new(hash, CompressionFunctionFromHasher::new(Keccak256Hash {}))
}

fn base_path_is_valid(
    root: [u8; 32],
    height: usize,
    index: usize,
    leaf: &[Felt],
    path: &Vec<[u8; 32]>,
) -> bool {
    let values = vec![leaf.iter().map(|x| Goldilocks::from_u64(x.value)).collect::<Vec<_>>()];
    let dims = [Dimensions { width: leaf.len(), height }];
    let root = root.into();
    mmcs().verify_batch(&root, &dims, index, BatchOpeningRef::new(&values, path)).is_ok()
}

fn ext_path_is_valid(
    root: [u8; 32],
    height: usize,
    index: usize,
    leaf: &[Ext],
    path: &Vec<[u8; 32]>,
) -> bool {
    let values = vec![leaf
        .iter()
        .map(|x| E2::from_basis_coefficients_fn(|i| Goldilocks::from_u64([x.c0, x.c1][i])))
        .collect::<Vec<_>>()];
    let dims = [Dimensions { width: leaf.len(), height }];
    let root = root.into();
    ExtensionMmcs::<Goldilocks, E2, BaseMmcs>::new(mmcs())
        .verify_batch(&root, &dims, index, BatchOpeningRef::new(&values, path))
        .is_ok()
}

/// A fixed supply of numbers below the order of the field.
struct Numbers(u64);

impl Numbers {
    fn next(&mut self) -> u64 {
        self.0 = self.0.wrapping_mul(6364136223846793005).wrapping_add(1442695040888963407);
        let x = self.0 ^ (self.0 >> 29);
        x % ORDER
    }

    fn scalar(&mut self) -> Ext {
        Ext { c0: self.next(), c1: self.next() }
    }

    fn scalars(&mut self, n: usize) -> Vec<Ext> {
        (0..n).map(|_| self.scalar()).collect()
    }

    fn bytes(&mut self, n: usize) -> Vec<u8> {
        (0..n).map(|_| (self.next() >> 20) as u8).collect()
    }
}

fn bits(x: f64) -> PowBits {
    PowBits(x.to_bits())
}

fn config(
    num_variables: usize,
    folding_factor: FoldingFactor,
    log_size: usize,
    rounds: usize,
    initial_statement: bool,
    pow: f64,
) -> WhirConfig {
    let round = |i: usize| RoundConfig {
        pow_bits: bits(pow),
        folding_pow_bits: bits(if i == 0 { pow } else { 0.0 }),
        num_queries: 4,
        ood_samples: i % 2 + if pow > 0.0 { 1 } else { 0 },
    };
    WhirConfig {
        mv_parameters: MultivariateParameters { num_variables },
        folding_factor,
        starting_domain: Domain { log_size },
        committment_ood_samples: if initial_statement { 2 } else { 0 },
        initial_statement,
        starting_folding_pow_bits: bits(pow),
        round_parameters: (0..rounds).map(round).collect(),
        final_queries: 5,
        final_pow_bits: bits(pow),
        final_sumcheck_rounds: num_variables - folding_factor.total_number(rounds),
        final_folding_pow_bits: bits(pow),
    }
}

/// What is proved of a polynomial: its value at a point, and two weighted sums.
struct Claims {
    point: Vec<Ext>,
    weights: [Vec<Ext>; 2],
}

impl Claims {
    fn new(numbers: &mut Numbers, n: usize) -> Claims {
        Claims {
            point: numbers.scalars(n),
            weights: [numbers.scalars(1 << n), numbers.scalars(1 << n)],
        }
    }

    /// The weight vectors, in the order of the statement.
    fn vectors(&self) -> Vec<Vec<Ext>> {
        vec![
            self.weights[0].clone(),
            eq_weights_at(&MultilinearPoint(self.point.clone())),
            self.weights[1].clone(),
        ]
    }

    fn statement(&self, coeffs: &Vec<Ext>) -> Statement {
        let n = self.point.len();
        let values = to_evaluations(coeffs);
        let mut statement = Statement::new(n);
        let list =
            |i: usize| EvaluationsList { evals: self.weights[i].clone(), num_variables: n };
        let point = MultilinearPoint(self.point.clone());
        let vectors = self.vectors();
        statement.add_constraint(Weights::linear(list(0)), dot_product(&values, &vectors[0]));
        statement.add_constraint(Weights::evaluation(point), dot_product(&values, &vectors[1]));
        statement.add_constraint(Weights::linear(list(1)), dot_product(&values, &vectors[2]));
        statement
    }
}

fn polynomial(numbers: &mut Numbers, n: usize) -> Vec<Felt> {
    (0..1 << n).map(|_| Felt { value: numbers.next() }).collect()
}

fn lift(coeffs: &[Felt]) -> Vec<Ext> {
    coeffs.iter().map(|&x| Ext::from_base(x)).collect()
}

/// Commits and proves; returns the transcript and what `prove` returned.
fn run(
    config: WhirConfig,
    coeffs: &[Felt],
    claims: Option<&Claims>,
    scalars: Vec<Ext>,
    bytes: Vec<u8>,
) -> (Prover, ScriptedTranscript, Result<WhirProof, ProofError>) {
    assert!(config.is_usable());
    let mut ts = ScriptedTranscript::new(scalars, bytes);
    let n = config.mv_parameters.num_variables;
    let polynomial = CoefficientList::new(coeffs.to_vec());
    let statement = match claims {
        Some(claims) => claims.statement(&lift(coeffs)),
        None => Statement::new(n),
    };
    let witness = match CommitmentWriter(&config).commit(&mut ts, polynomial) {
        Ok(witness) => witness,
        Err(e) => return (Prover(config), ts, Err(e)),
    };
    let prover = Prover(config);
    let r = prover.prove(&mut ts, statement, witness);
    (prover, ts, r)
}

/// Reads the steps of a transcript one by one.
struct Reader<'a> {
    messages: &'a Vec<Message>,
    next: usize,
}

impl<'a> Reader<'a> {
    fn step(&mut self) -> &'a Message {
        self.next += 1;
        &self.messages[self.next - 1]
    }

    fn digest(&mut self) -> [u8; 32] {
        match self.step() {
            Message::Digest(d) => *d,
            other => panic!("{:?}", other),
        }
    }

    fn scalars(&mut self) -> &'a Vec<Ext> {
        match self.step() {
            Message::Scalars(v) => v,
            other => panic!("{:?}", other),
        }
    }

    fn challenge(&mut self) -> &'a Vec<Ext> {
        match self.step() {
            Message::Challenge(v) => v,
            other => panic!("{:?}", other),
        }
    }

    fn bytes(&mut self) -> &'a Vec<u8> {
        match self.step() {
            Message::Bytes(v) => v,
            other => panic!("{:?}", other),
        }
    }

    fn pow(&mut self, bits: PowBits) {
        if f64::from_bits(bits.0) > 0.0 {
            match self.step() {
                Message::Pow(b) => assert_eq!(*b, bits),
                other => panic!("{:?}", other),
            }
        }
    }
}

/// The value at `t` of the polynomial of degree two with the values `h` at zero, one and two.
fn interpolate(h: &[Ext], t: Ext) -> Ext {
    let half = Ext { c0: ORDER / 2 + 1, c1: 0 };
    let one = Ext::one();
    let two = one.add(one);
    let d1 = h[1].sub(h[0]);
    let d2 = h[2].sub(h[1]).sub(d1);
    let pairs = t.mul(t.sub(one)).mul(half);
    assert_eq!(half.mul(two), one);
    h[0].add(t.mul(d1)).add(pairs.mul(d2))
}

/// The verifier's side of the claim: its weights and its sum.
struct Claim {
    weights: Vec<Ext>,
    sum: Ext,
}

impl Claim {
    fn add(&mut self, factor: Ext, weights: &[Ext], value: Ext) {
        for (w, x) in self.weights.iter_mut().zip(weights) {
            *w = w.add(factor.mul(*x));
        }
        self.sum = self.sum.add(factor.mul(value));
    }

    /// Follows a sumcheck, and returns the challenges.
    fn sumcheck(&mut self, reader: &mut Reader, rounds: usize, pow: PowBits) -> Vec<Ext> {
        let mut folds = Vec::new();
        for _ in 0..rounds {
            let h = reader.scalars();
            assert_eq!(h.len(), 3);
            assert_eq!(h[0].add(h[1]), self.sum);
            let r = reader.challenge()[0];
            reader.pow(pow);
            self.sum = interpolate(h, r);
            self.weights = self
                .weights
                .chunks(2)
                .map(|w| w[0].add(r.mul(w[1].sub(w[0]))))
                .collect();
            folds.push(r);
        }
        folds
    }
}

fn point_of(folds: &[Ext]) -> MultilinearPoint {
    MultilinearPoint(folds.iter().rev().copied().collect())
}

/// The distinct queries that the bytes give, in increasing order.
fn indices(bytes: &[u8], bits: usize, queries: usize) -> Vec<usize> {
    let len = (bits + 7) / 8;
    assert_eq!(bytes.len(), len * queries);
    let mut all: Vec<usize> = bytes
        .chunks(len)
        .map(|c| c.iter().fold(0, |acc: usize, b| acc * 256 + *b as usize) % (1 << bits))
        .collect();
    all.sort();
    all.dedup();
    all
}

/// Verifies the openings of a round and returns the leaves.
fn opened(
    proof: &WhirProof,
    round: usize,
    root: [u8; 32],
    log_height: usize,
    queries: &[usize],
) -> Vec<Vec<Ext>> {
    let height = 1 << log_height;
    if round == 0 {
        let (leaves, paths): &(Leafs<Felt>, Proof) = &proof.commitment_merkle_paths;
        assert_eq!((leaves.len(), paths.len()), (queries.len(), queries.len()));
        for (i, &index) in queries.iter().enumerate() {
            assert!(base_path_is_valid(root, height, index, &leaves[i], &paths[i]));
            let mut other = leaves[i].clone();
            other[0].value = (other[0].value + 1) % ORDER;
            assert!(!base_path_is_valid(root, height, index, &other, &paths[i]));
        }
        leaves.iter().map(|leaf| lift(leaf)).collect()
    } else {
        let (leaves, paths) = &proof.merkle_paths[round - 1];
        assert_eq!((leaves.len(), paths.len()), (queries.len(), queries.len()));
        for (i, &index) in queries.iter().enumerate() {
            assert!(ext_path_is_valid(root, height, index, &leaves[i], &paths[i]));
            let mut other = leaves[i].clone();
            other[0] = other[0].add(Ext::one());
            assert!(!ext_path_is_valid(root, height, index, &other, &paths[i]));
        }
        leaves.clone()
    }
}

/// Replays the transcript as a verifier does.
fn replay(
    config: &WhirConfig,
    coeffs: &[Felt],
    claims: Option<&Claims>,
    messages: &Vec<Message>,
    proof: &WhirProof,
) {
    let n = config.mv_parameters.num_variables;
    let f = config.folding_factor;
    let coeffs = lift(coeffs);
    let polynomial = CoefficientList::new(coeffs.clone());
    let mut reader = Reader { messages, next: 0 };
    let mut root = reader.digest();
    let mut claim = Claim { weights: vec![Ext::zero(); 1 << n], sum: Ext::zero() };
    let mut folding;
    let mut randomness = Vec::new();
    if config.initial_statement {
        let claims = claims.unwrap();
        let points = reader.challenge().clone();
        let answers = reader.scalars().clone();
        let gamma = reader.challenge()[0];
        let values = to_evaluations(&coeffs);
        let mut factor = Ext::one();
        for (point, answer) in points.iter().zip(&answers) {
            let point = MultilinearPoint::expand_from_univariate(*point, n);
            assert_eq!(*answer, polynomial.evaluate(&point));
            claim.add(factor, &eq_weights_at(&point), *answer);
            factor = factor.mul(gamma);
        }
        for vector in claims.vectors() {
            claim.add(factor, &vector, dot_product(&values, &vector));
            factor = factor.mul(gamma);
        }
        folding =
            claim.sumcheck(&mut reader, f.at_round(0), config.starting_folding_pow_bits);
    } else {
        folding = reader.challenge().iter().rev().copied().collect();
        reader.pow(config.starting_folding_pow_bits);
        claim.weights.truncate(1 << (n - f.at_round(0)));
    }
    let mut current = polynomial.fold(&point_of(&folding));
    randomness.extend(folding.clone());
    let mut log_size = config.starting_domain.log_size;
    for round in 0..config.n_rounds() {
        let params = config.round_parameters[round];
        let left = n - f.total_number(round);
        assert_eq!(current.num_variables(), left);
        let next_root = reader.digest();
        let mut constraints = Vec::new();
        if params.ood_samples > 0 {
            let points = reader.challenge().clone();
            assert_eq!(points.len(), params.ood_samples);
            constraints.extend(points.into_iter().zip(reader.scalars().clone()));
        }
        let log_height = log_size - f.at_round(round);
        let queries = indices(reader.bytes(), log_height, params.num_queries);
        for (i, leaf) in opened(proof, round, root, log_height, &queries).into_iter().enumerate() {
            assert_eq!(leaf.len(), 1 << f.at_round(round));
            let x = Domain { log_size: log_height }.element(queries[i]);
            constraints.push((x, CoefficientList::new(leaf).evaluate(&point_of(&folding))));
        }
        reader.pow(params.pow_bits);
        let gamma = reader.challenge()[0];
        let mut factor = Ext::one();
        for (x, value) in constraints {
            let point = MultilinearPoint::expand_from_univariate(x, left);
            assert_eq!(value, current.evaluate(&point));
            claim.add(factor, &eq_weights_at(&point), value);
            factor = factor.mul(gamma);
        }
        folding = claim.sumcheck(&mut reader, f.at_round(round + 1), params.folding_pow_bits);
        current = current.fold(&point_of(&folding));
        randomness.extend(folding.clone());
        root = next_root;
        log_size -= 1;
    }
    let sent = reader.scalars();
    assert_eq!(sent, current.coeffs());
    let last = config.n_rounds();
    let log_height = log_size - f.at_round(last);
    let queries = indices(reader.bytes(), log_height, config.final_queries);
    for (i, leaf) in opened(proof, last, root, log_height, &queries).into_iter().enumerate() {
        let x = Domain { log_size: log_height }.element(queries[i]);
        let point = MultilinearPoint::expand_from_univariate(x, current.num_variables());
        let value = CoefficientList::new(leaf).evaluate(&point_of(&folding));
        assert_eq!(value, current.evaluate(&point));
    }
    reader.pow(config.final_pow_bits);
    let folds =
        claim.sumcheck(&mut reader, config.final_sumcheck_rounds, config.final_folding_pow_bits);
    randomness.extend(folds.clone());
    assert_eq!(reader.next, messages.len());
    // the claim at the end, about the value of the committed polynomial at the random point
    assert_eq!(randomness.len(), n);
    let value = current.evaluate(&point_of(&folds));
    assert_eq!(value, polynomial.evaluate(&point_of(&randomness)));
    assert_eq!(claim.weights.len(), 1);
    assert_eq!(claim.sum, value.mul(claim.weights[0]));
    assert_eq!(proof.merkle_paths.len(), config.n_rounds());
    let expected: Vec<Ext> = match claims {
        Some(claims) => claims
            .weights
            .iter()
            .map(|w| {
                let list = EvaluationsList { evals: w.clone(), num_variables: n };
                list.eval_extension(&point_of(&randomness))
            })
            .collect(),
        None => vec![],
    };
    assert_eq!(proof.statement_values_at_random_point, expected);
}

/// Proves with ample supplies, and replays the transcript.
fn prove_and_replay(make: impl Fn() -> WhirConfig, seed: u64) {
    let mut numbers = Numbers(seed);
    let n = make().mv_parameters.num_variables;
    let coeffs = polynomial(&mut numbers, n);
    let claims = Claims::new(&mut numbers, n);
    let claims = if make().initial_statement { Some(&claims) } else { None };
    let (scalars, bytes) = (numbers.scalars(100), numbers.bytes(200));
    let (prover, ts, r) = run(make(), &coeffs, claims, scalars, bytes);
    replay(&prover, &coeffs, claims, ts.messages(), &r.unwrap());
}

#[test]
fn proof_with_two_rounds_and_a_final_sumcheck() {
    prove_and_replay(|| config(8, FoldingFactor::Constant(2), 9, 2, true, 0.0), 1);
}

#[test]
fn proof_with_proofs_of_work_and_samples_in_every_round() {
    prove_and_replay(|| config(8, FoldingFactor::Constant(2), 10, 2, true, 1.5), 2);
}

#[test]
fn proof_with_another_factor_from_the_second_round_on() {
    let f = FoldingFactor::ConstantFromSecondRound(3, 1);
    prove_and_replay(|| config(7, f, 8, 3, true, 0.0), 3);
}

#[test]
fn proof_without_a_final_sumcheck() {
    prove_and_replay(|| config(6, FoldingFactor::Constant(3), 8, 1, true, 0.0), 4);
}

#[test]
fn proof_without_rounds() {
    prove_and_replay(|| config(5, FoldingFactor::Constant(3), 6, 0, true, 2.0), 5);
}

#[test]
fn proof_without_a_statement() {
    prove_and_replay(|| config(7, FoldingFactor::Constant(2), 9, 2, false, 1.0), 6);
}

#[test]
fn proof_without_a_statement_and_without_rounds() {
    prove_and_replay(|| config(4, FoldingFactor::Constant(2), 5, 0, false, 0.0), 7);
}

#[test]
fn proof_where_nothing_is_folded_first() {
    let f = FoldingFactor::ConstantFromSecondRound(0, 2);
    prove_and_replay(|| config(5, f, 8, 1, true, 0.0), 8);
}

/// A proof fails where the transcript does, having sent nothing but the start of the proof.
#[test]
fn proof_stops_where_the_transcript_fails() {
    let make = || config(6, FoldingFactor::Constant(2), 8, 1, true, 1.0);
    let mut numbers = Numbers(9);
    let coeffs = polynomial(&mut numbers, 6);
    let claims = Claims::new(&mut numbers, 6);
    let (scalars, bytes) = (numbers.scalars(40), numbers.bytes(40));
    let (_, full, r) = run(make(), &coeffs, Some(&claims), scalars.clone(), bytes.clone());
    assert!(r.is_ok());
    let used_scalars: usize = full
        .messages()
        .iter()
        .map(|m| match m {
            Message::Challenge(v) => v.len(),
            _ => 0,
        })
        .sum();
    let used_bytes: usize = full
        .messages()
        .iter()
        .map(|m| match m {
            Message::Bytes(v) => v.len(),
            _ => 0,
        })
        .sum();
    let ended = |ts: &ScriptedTranscript| {
        let sent = ts.messages();
        let taken = sent.len() - 1;
        assert!(taken < full.messages().len());
        assert_eq!(sent[..taken], full.messages()[..taken]);
        // the call that was refused is the next one of the proof
        match (&sent[taken], &full.messages()[taken]) {
            (Message::RefusedChallenge(n, e), Message::Challenge(v)) if *n == v.len() => *e,
            (Message::RefusedBytes(n, e), Message::Bytes(v)) if *n == v.len() => *e,
            other => panic!("{:?}", other),
        }
    };
    for k in 0..used_scalars {
        let (_, ts, r) =
            run(make(), &coeffs, Some(&claims), scalars[..k].to_vec(), bytes.clone());
        assert_eq!(r, Err(ProofError::InvalidIO));
        assert_eq!(ended(&ts), ProofError::InvalidIO);
        let mut bad = scalars.clone();
        bad[k].c1 = ORDER;
        let (_, ts, r) = run(make(), &coeffs, Some(&claims), bad, bytes.clone());
        assert_eq!(r, Err(ProofError::SerializationError));
        assert_eq!(ended(&ts), ProofError::SerializationError);
    }
    for k in 0..used_bytes {
        let (_, ts, r) =
            run(make(), &coeffs, Some(&claims), scalars.clone(), bytes[..k].to_vec());
        assert_eq!(r, Err(ProofError::InvalidIO));
        assert_eq!(ended(&ts), ProofError::InvalidIO);
    }
    let (_, _, r) = run(
        make(),
        &coeffs,
        Some(&claims),
        scalars[..used_scalars].to_vec(),
        bytes[..used_bytes].to_vec(),
    );
    assert!(r.is_ok());
}

#[test]
fn the_prover_gives_its_parameters() {
    let prover = Prover(config(6, FoldingFactor::Constant(2), 8, 1, true, 0.0));
    assert_eq!(prover.n_rounds(), 1);
    assert_eq!(prover.mv_parameters.num_variables, 6);
    assert_eq!(prover.folding_factor, FoldingFactor::Constant(2));
}

#[test]
fn what_is_to_be_proved_is_validated() {
    let make = |statement: bool| config(6, FoldingFactor::Constant(2), 8, 1, statement, 0.0);
    let prover = Prover(make(true));
    assert!(prover.validate_parameters());
    assert!(!Prover(WhirConfig { final_sumcheck_rounds: 3, ..make(true) }).validate_parameters());
    let mut numbers = Numbers(10);
    let coeffs = polynomial(&mut numbers, 6);
    let statement = Claims::new(&mut numbers, 6).statement(&lift(&coeffs));
    assert!(prover.validate_statement(&statement));
    assert!(!prover.validate_statement(&Statement::new(5)));
    // without a statement there are to be no constraints
    let plain = Prover(make(false));
    assert!(!plain.validate_statement(&statement));
    assert!(plain.validate_statement(&Statement::new(6)));
    let mut ts = ScriptedTranscript::new(vec![], vec![]);
    let committed = CoefficientList::new(coeffs);
    let witness = CommitmentWriter(&plain).commit(&mut ts, committed).unwrap();
    assert!(plain.validate_witness(&witness));
    let larger = config(7, FoldingFactor::Constant(2), 8, 1, false, 0.0);
    assert!(!Prover(larger).validate_witness(&witness));
}

#[test]
fn commitments_are_to_the_codeword() {
    let make = || config(5, FoldingFactor::Constant(2), 7, 1, true, 0.0);
    let config = make();
    let mut numbers = Numbers(11);
    let coeffs = polynomial(&mut numbers, 5);
    let mut ts = ScriptedTranscript::new(numbers.scalars(2), vec![]);
    let witness =
        CommitmentWriter(&config).commit(&mut ts, CoefficientList::new(coeffs.clone())).unwrap();
    let root = Reader { messages: ts.messages(), next: 0 }.digest();
    let all: Vec<usize> = (0..32).collect();
    let (leaves, paths) = open_base_rows(&all, &witness.prover_data);
    let word = encode_base(&coeffs, 7, 2);
    for index in 0..32 {
        assert_eq!(leaves[index], word[4 * index..4 * index + 4].to_vec());
        assert!(base_path_is_valid(root, 32, index, &leaves[index], &paths[index]));
    }
    // the same polynomial has the same commitment, another one has another
    let mut other = coeffs.clone();
    other[3].value ^= 1;
    for (c, same) in [(coeffs, true), (other, false)] {
        let mut ts = ScriptedTranscript::new(numbers.scalars(2), vec![]);
        CommitmentWriter(&config).commit(&mut ts, CoefficientList::new(c)).unwrap();
        assert_eq!(Reader { messages: ts.messages(), next: 0 }.digest() == root, same);
    }
}

/// The state before the first round, with a transcript that has the given supplies left.
fn start(
    prover: &Prover,
    seed: u64,
    scalars: usize,
    bytes: usize,
) -> (ScriptedTranscript, RoundState) {
    let mut numbers = Numbers(seed);
    let n = prover.mv_parameters.num_variables;
    let coeffs = polynomial(&mut numbers, n);
    let statement = Claims::new(&mut numbers, n).statement(&lift(&coeffs));
    let used = 2 + 1 + prover.folding_factor.at_round(0);
    let mut ts = ScriptedTranscript::new(numbers.scalars(used + scalars), numbers.bytes(bytes));
    let witness =
        CommitmentWriter(prover).commit(&mut ts, CoefficientList::new(coeffs)).unwrap();
    let state =
        RoundState::initialize_first_round_state(prover, &mut ts, statement, witness).unwrap();
    (ts, state)
}

#[test]
fn a_refused_round_leaves_the_state() {
    let prover = Prover(config(6, FoldingFactor::Constant(2), 8, 1, true, 1.0));
    // one sample, one combination challenge and two of the sumcheck are asked for
    for (scalars, bytes) in [(0, 9), (1, 3), (1, 9), (2, 9), (3, 9), (4, 9)] {
        let (_, before) = start(&prover, 12, scalars, bytes);
        let (mut ts, mut state) = start(&prover, 12, scalars, bytes);
        let r = prover.round(0, &mut ts, &mut state);
        if scalars == 4 {
            assert_eq!(r, Ok(()));
            assert!(matches!(state.coefficients, CoefficientStorage::Extension(_)));
            assert_eq!(state.domain, Domain { log_size: 7 });
            assert!(state.sumcheck_prover.is_some() && state.merkle_prover_data.is_some());
            // the challenges stand behind those of the start, in the order of their receipt
            let fold = &state.folding_randomness.0;
            assert_eq!(state.randomness_vec[2..4], [fold[1], fold[0]]);
            assert_eq!(state.randomness_vec[..2], before.randomness_vec[..2]);
            assert_eq!(state.randomness_vec[4..], before.randomness_vec[4..]);
            continue;
        }
        assert_eq!(r, Err(ProofError::InvalidIO));
        assert_eq!(state.domain, before.domain);
        assert_eq!(state.folding_randomness, before.folding_randomness);
        assert_eq!(state.randomness_vec, before.randomness_vec);
        assert!(matches!(state.coefficients, CoefficientStorage::Base(_)));
        assert!(state.merkle_prover_data.is_none());
        assert!(state.merkle_proofs.is_empty());
        assert_eq!(state.statement.constraints.len(), before.statement.constraints.len());
        // opened once the queries are known; the sumcheck goes on only when all was received
        let queried = scalars >= 1 && bytes == 9;
        assert_eq!(state.commitment_merkle_proof.is_some(), queried);
        assert_eq!(state.sumcheck_prover.is_some(), scalars < 2);
    }
}

#[test]
fn a_refused_final_round_leaves_the_state() {
    let prover = Prover(config(4, FoldingFactor::Constant(2), 6, 0, true, 1.0));
    for (scalars, bytes) in [(2, 4), (0, 5), (1, 5), (2, 5)] {
        let (_, before) = start(&prover, 13, scalars, bytes);
        let (mut ts, mut state) = start(&prover, 13, scalars, bytes);
        let r = prover.round(0, &mut ts, &mut state);
        let done = (scalars, bytes) == (2, 5);
        assert_eq!(r, if done { Ok(()) } else { Err(ProofError::InvalidIO) });
        assert_eq!(state.domain, before.domain);
        assert_eq!(state.folding_randomness, before.folding_randomness);
        assert_eq!(state.sumcheck_prover.unwrap().weights, before.sumcheck_prover.unwrap().weights);
        assert!(matches!(state.coefficients, CoefficientStorage::Base(_)));
        assert_eq!(state.commitment_merkle_proof.is_some(), bytes == 5);
        assert_eq!(state.randomness_vec == before.randomness_vec, !done);
    }
}

#[test]
fn queries_do_not_depend_on_the_samples() {
    let prover = Prover(config(6, FoldingFactor::Constant(2), 8, 1, true, 0.0));
    // other parameters than those of the round, and another domain
    let params = RoundConfig { num_queries: 5, ..prover.round_parameters[0] };
    let bytes = vec![0x01, 0x07, 0x00, 0x20, 0x02, 0xff, 0x00, 0x20, 0x03, 0x00];
    let mut numbers = Numbers(14);
    let mut runs = Vec::new();
    for samples in [0, 1, 3] {
        let (_, mut state) = start(&prover, 14, 0, 0);
        state.domain = Domain { log_size: 12 };
        let ood = numbers.scalars(samples);
        let mut ts = ScriptedTranscript::new(vec![], bytes.clone());
        let (points, queries) =
            prover.compute_stir_queries(7, &mut ts, &state, 3, &params, &ood).unwrap();
        assert_eq!(ts.messages(), &vec![Message::Bytes(bytes.clone())]);
        assert_eq!(points.len(), samples + queries.len());
        for (point, x) in points.iter().zip(&ood) {
            assert_eq!(*point, MultilinearPoint::expand_from_univariate(*x, 3));
        }
        let rest: Vec<Vec<Ext>> = points[samples..].iter().map(|p| p.0.clone()).collect();
        for (i, point) in rest.iter().enumerate() {
            // the element of the domain at the index times the size of a row
            let x = state.domain.element(queries[i] << 2);
            assert_eq!(*point, MultilinearPoint::expand_from_univariate(x, 3).0);
            assert_eq!(x.exp_u64(1 << 10), Ext::one());
            assert!(rest[..i].iter().all(|other| other != point));
        }
        runs.push((queries, rest));
    }
    assert_eq!(runs[0].0, vec![0x020, 0x107, 0x2ff, 0x300]);
    assert!(runs.iter().all(|r| *r == runs[0]));
}

#[test]
fn the_final_round_sends_what_it_is_given() {
    let prover = Prover(config(4, FoldingFactor::Constant(2), 6, 0, true, 0.0));
    let (mut ts, mut state) = start(&prover, 15, 2, 5);
    let before = state.randomness_vec.clone();
    let given = CoefficientList::new(Numbers(16).scalars(4));
    let sent = ts.messages().len();
    prover.final_round(0, &mut ts, &mut state, &given).unwrap();
    assert_eq!(ts.messages()[sent], Message::Scalars(given.coeffs().clone()));
    // the two challenges of the sumcheck, in the order of their receipt
    let challenges: Vec<Ext> = ts.messages()[sent..]
        .iter()
        .filter_map(|m| match m {
            Message::Challenge(v) => Some(v[0]),
            _ => None,
        })
        .collect();
    assert_eq!(state.randomness_vec[2..], challenges[..]);
    assert_eq!(state.randomness_vec[..2], before[..2]);
}
