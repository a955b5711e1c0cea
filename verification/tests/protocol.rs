//! Transcripts, queries, statements, sumchecks and parameters, on concrete values.
use whir_prover::domain::Domain;
use whir_prover::fiat_shamir::{
    challenge_pow_if_positive, challenge_scalar, Message, PowBits, ProofError, ScriptedTranscript,
    Transcript,
};
use whir_prover::field::{Ext, Felt, ORDER};
use whir_prover::poly::coeffs::CoefficientList;
use whir_prover::poly::evals::EvaluationsList;
use whir_prover::poly::multilinear::MultilinearPoint;
use whir_prover::sumcheck::{Quadratic, SumcheckSingle};
use whir_prover::whir::parameters::{
    FoldingFactor, MultivariateParameters, RoundConfig, WhirConfig,
};
use whir_prover::whir::statement::{Statement, Weights};
use whir_prover::whir::utils::{get_challenge_stir_queries, sample_ood_points};

fn ext(c0: u64, c1: u64) -> Ext {
    Ext { c0, c1 }
}

fn base(x: u64) -> Ext {
    ext(x, 0)
}

fn bits(x: f64) -> PowBits {
    PowBits(x.to_bits())
}

#[test]
fn difficulties_are_compared_with_zero() {
    for x in [1.0, 0.5, 22.25, f64::MIN_POSITIVE, 5e-324, f64::INFINITY] {
        assert!(x > 0.0 && bits(x).is_positive());
    }
    for x in [0.0, -0.0, -1.0, f64::NEG_INFINITY, f64::NAN, -f64::NAN] {
        assert!(!(x > 0.0) && !bits(x).is_positive());
    }
}

#[test]
fn scripted_transcripts_record_and_replay() {
    let mut ts = ScriptedTranscript::new(vec![base(1), base(2), base(3)], vec![9, 8, 7]);
    assert_eq!(ts.add_digest(&[5; 32]), Ok(()));
    assert_eq!(ts.challenge_scalars(2), Ok(vec![base(1), base(2)]));
    assert_eq!(ts.add_scalars(&vec![base(40)]), Ok(()));
    assert_eq!(challenge_scalar(&mut ts), Ok(base(3)));
    assert_eq!(ts.challenge_bytes(2), Ok(vec![9, 8]));
    assert_eq!(challenge_pow_if_positive(&mut ts, bits(3.0)), Ok(()));
    assert_eq!(challenge_pow_if_positive(&mut ts, bits(0.0)), Ok(()));
    let expected = vec![
        Message::Digest([5; 32]),
        Message::Challenge(vec![base(1), base(2)]),
        Message::Scalars(vec![base(40)]),
        Message::Challenge(vec![base(3)]),
        Message::Bytes(vec![9, 8]),
        Message::Pow(bits(3.0)),
    ];
    assert_eq!(ts.messages(), &expected);
}

#[test]
fn an_exhausted_transcript_fails() {
    let mut ts = ScriptedTranscript::new(vec![base(1)], vec![9]);
    assert_eq!(ts.challenge_scalars(2), Err(ProofError::InvalidIO));
    assert_eq!(ts.challenge_bytes(2), Err(ProofError::InvalidIO));
    assert_eq!(ts.challenge_scalars(1), Ok(vec![base(1)]));
    assert_eq!(ts.challenge_bytes(1), Ok(vec![9]));
    assert_eq!(challenge_scalar(&mut ts), Err(ProofError::InvalidIO));
    let expected = vec![
        Message::RefusedChallenge(2, ProofError::InvalidIO),
        Message::RefusedBytes(2, ProofError::InvalidIO),
        Message::Challenge(vec![base(1)]),
        Message::Bytes(vec![9]),
        Message::RefusedChallenge(1, ProofError::InvalidIO),
    ];
    assert_eq!(ts.messages(), &expected);
}

#[test]
fn an_unreduced_challenge_is_refused() {
    for x in [ext(ORDER, 0), ext(0, ORDER), ext(u64::MAX, 1)] {
        let mut ts = ScriptedTranscript::new(vec![base(1), x], vec![]);
        assert_eq!(ts.challenge_scalars(2), Err(ProofError::SerializationError));
        let refused = Message::RefusedChallenge(2, ProofError::SerializationError);
        assert_eq!(ts.messages(), &vec![refused]);
        assert_eq!(ts.challenge_scalars(1), Ok(vec![base(1)]));
    }
}

#[test]
fn samples_out_of_the_domain() {
    let p = CoefficientList::new(vec![base(1), base(2), base(3), base(4)]);
    let mut ts = ScriptedTranscript::new(vec![base(10), base(2)], vec![]);
    let (points, answers) = sample_ood_points(&mut ts, 2, &p).unwrap();
    assert_eq!(points, vec![base(10), base(2)]);
    assert_eq!(answers, vec![base(4321), base(49)]);
    let expected =
        vec![Message::Challenge(points), Message::Scalars(answers)];
    assert_eq!(ts.messages(), &expected);

    let mut ts = ScriptedTranscript::new(vec![], vec![]);
    assert_eq!(sample_ood_points(&mut ts, 0, &p), Ok((vec![], vec![])));
    assert!(ts.messages().is_empty());
    assert_eq!(sample_ood_points(&mut ts, 1, &p), Err(ProofError::InvalidIO));
}

#[test]
fn queries_are_sorted_and_distinct() {
    // ten bits: two bytes per query, the high byte first
    let bytes = vec![0x00, 0x05, 0xff, 0xff, 0x04, 0x05, 0x01, 0x00, 0x07, 0xff];
    let mut ts = ScriptedTranscript::new(vec![], bytes.clone());
    let indices = get_challenge_stir_queries(&Domain { log_size: 12 }, 2, 5, &mut ts);
    // 5, 1023, 1029 - 1024 = 5, 256, 2047 - 1024 = 1023
    assert_eq!(indices, Ok(vec![5, 256, 1023]));
    assert_eq!(ts.messages(), &vec![Message::Bytes(bytes)]);
}

#[test]
fn queries_of_whole_bytes() {
    let mut ts = ScriptedTranscript::new(vec![], vec![3, 255, 0, 3, 9]);
    let domain = Domain { log_size: 9 };
    assert_eq!(get_challenge_stir_queries(&domain, 1, 4, &mut ts), Ok(vec![0, 3, 255]));
    assert_eq!(get_challenge_stir_queries(&domain, 1, 0, &mut ts), Ok(vec![]));
    assert_eq!(get_challenge_stir_queries(&domain, 8, 1, &mut ts), Ok(vec![1]));
    assert_eq!(
        get_challenge_stir_queries(&domain, 1, 1, &mut ts),
        Err(ProofError::InvalidIO)
    );
}

#[test]
fn statements_combine_by_powers() {
    let mut statement = Statement::new(1);
    assert_eq!(statement.num_variables(), 1);
    let linear = EvaluationsList { evals: vec![base(1), base(2)], num_variables: 1 };
    statement.add_constraint(Weights::linear(linear), base(100));
    statement
        .add_constraint(Weights::evaluation(MultilinearPoint(vec![base(3)])), base(1000));
    let (weights, sum) = statement.combine(base(10));
    // (1, 2) + 10 (1 - 3, 3)
    assert_eq!(weights, vec![ext(ORDER - 19, 0), base(32)]);
    assert_eq!(sum, base(10100));

    let first = Weights::evaluation(MultilinearPoint(vec![base(0)]));
    statement.add_constraints_in_front(vec![(first, base(5))]);
    let (weights, sum) = statement.combine(base(10));
    // (1, 0) + 10 (1, 2) + 100 (-2, 3)
    assert_eq!(weights, vec![ext(ORDER - 189, 0), base(320)]);
    assert_eq!(sum, base(101005));
    assert_eq!(Statement::new(1).combine(base(10)), (vec![Ext::zero(); 2], Ext::zero()));
}

#[test]
fn sumcheck_exact_messages() {
    // p = 1 + 2 x2 + 3 x1 + 4 x1 x2 on the hypercube: 1, 3, 4, 10
    let p = CoefficientList::new(vec![
        Felt { value: 1 },
        Felt { value: 2 },
        Felt { value: 3 },
        Felt { value: 4 },
    ]);
    let mut statement = Statement::new(2);
    let weight =
        EvaluationsList { evals: vec![base(1), base(2), base(3), base(5)], num_variables: 2 };
    // 1 + 6 + 12 + 50
    statement.add_constraint(Weights::linear(weight), base(69));
    let mut sumcheck = SumcheckSingle::from_base_coeffs(&p, &statement, base(17));
    let mut ts = ScriptedTranscript::new(vec![base(2), base(3)], vec![]);
    let point = sumcheck.compute_sumcheck_polynomials(&mut ts, 2, bits(1.0)).unwrap();
    assert_eq!(point.0, vec![base(3), base(2)]);
    // with x2 = t: p is 1 + 2t, 4 + 6t and the weights are 1 + t, 3 + 2t
    // h(t) = (1 + 2t)(1 + t) + (4 + 6t)(3 + 2t): 13, 56, 112 + 15; h(2) = 5 * 3 + 16 * 7
    // with x1 = s: p is 5 + 11s and the weight 3 + 4s: 15, 112, 27 * 11
    let expected = vec![
        Message::Scalars(vec![base(13), base(56), base(127)]),
        Message::Challenge(vec![base(2)]),
        Message::Pow(bits(1.0)),
        Message::Scalars(vec![base(15), base(112), base(297)]),
        Message::Challenge(vec![base(3)]),
        Message::Pow(bits(1.0)),
    ];
    assert_eq!(ts.messages(), &expected);
    // at x1 = 3: 38 * 15
    assert_eq!(sumcheck.evaluation_of_p, vec![base(38)]);
    assert_eq!(sumcheck.weights, vec![base(15)]);
    assert_eq!(sumcheck.sum, base(570));
}

#[test]
fn sumcheck_keeps_a_false_claim_false() {
    let p = CoefficientList::new(vec![base(1), base(2)]);
    let mut statement = Statement::new(1);
    let point = MultilinearPoint(vec![base(4)]);
    statement.add_constraint(Weights::evaluation(point), base(10));
    let mut sumcheck = SumcheckSingle::from_extension_coeffs(&p, &statement, base(1));
    let mut ts = ScriptedTranscript::new(vec![base(6)], vec![]);
    sumcheck.compute_sumcheck_polynomials(&mut ts, 1, bits(0.0)).unwrap();
    match &ts.messages()[0] {
        Message::Scalars(h) => assert_eq!(h[0].add(h[1]), base(10)),
        other => panic!("{:?}", other),
    }
    let product = sumcheck.evaluation_of_p[0].mul(sumcheck.weights[0]);
    assert_ne!(sumcheck.sum, product);
}

#[test]
fn new_equalities_join_the_claim() {
    let p = CoefficientList::new(vec![base(1), base(2)]);
    let mut sumcheck =
        SumcheckSingle::from_extension_coeffs(&p, &Statement::new(1), Ext::one());
    let points = vec![MultilinearPoint(vec![base(4)]), MultilinearPoint(vec![base(7)])];
    sumcheck.add_new_equality(&points, &vec![base(9), base(15)], &vec![base(1), base(10)]);
    // (1 - 4, 4) + 10 (1 - 7, 7)
    assert_eq!(sumcheck.weights, vec![ext(ORDER - 63, 0), base(74)]);
    assert_eq!(sumcheck.sum, base(159));
    assert_eq!(sumcheck.evaluation_of_p, vec![base(1), base(3)]);
    let copy = sumcheck.duplicate();
    assert_eq!(copy.weights, sumcheck.weights);
}

#[test]
fn sumcheck_stops_where_the_transcript_fails() {
    let p = CoefficientList::new(vec![base(1), base(2), base(3), base(4)]);
    let mut sumcheck =
        SumcheckSingle::from_extension_coeffs(&p, &Statement::new(2), Ext::one());
    let mut ts = ScriptedTranscript::new(vec![base(2)], vec![]);
    let r = sumcheck.compute_sumcheck_polynomials(&mut ts, 2, bits(0.0));
    assert_eq!(r, Err(ProofError::InvalidIO));
    // the first round was taken, and the values of the second one were sent
    assert_eq!(ts.messages().len(), 4);
    assert_eq!(ts.messages()[3], Message::RefusedChallenge(1, ProofError::InvalidIO));
    assert_eq!(sumcheck.evaluation_of_p, vec![base(5), base(16)]);
}

#[test]
fn quadratics() {
    let h = Quadratic { c0: base(1), c1: base(2), c2: base(3) };
    assert_eq!(h.value(base(10)), base(321));
}

#[test]
fn folding_factors() {
    let f = FoldingFactor::Constant(4);
    assert_eq!((f.at_round(0), f.at_round(3)), (4, 4));
    assert_eq!((f.total_number(0), f.total_number(3)), (4, 16));
    let f = FoldingFactor::ConstantFromSecondRound(5, 2);
    assert_eq!((f.at_round(0), f.at_round(1), f.at_round(2)), (5, 2, 2));
    assert_eq!((f.total_number(0), f.total_number(1), f.total_number(3)), (5, 7, 11));
}

fn config() -> WhirConfig {
    let round = RoundConfig {
        pow_bits: bits(0.0),
        folding_pow_bits: bits(0.0),
        num_queries: 3,
        ood_samples: 1,
    };
    WhirConfig {
        mv_parameters: MultivariateParameters { num_variables: 6 },
        folding_factor: FoldingFactor::Constant(2),
        starting_domain: Domain { log_size: 7 },
        committment_ood_samples: 1,
        initial_statement: true,
        starting_folding_pow_bits: bits(0.0),
        round_parameters: vec![round],
        final_queries: 3,
        final_pow_bits: bits(0.0),
        final_sumcheck_rounds: 2,
        final_folding_pow_bits: bits(0.0),
    }
}

#[test]
fn usable_parameters() {
    assert!(config().is_usable());
    assert_eq!(config().n_rounds(), 1);
    // the variables are not all folded
    assert!(!WhirConfig { final_sumcheck_rounds: 1, ..config() }.is_usable());
    assert!(!WhirConfig { final_sumcheck_rounds: 3, ..config() }.is_usable());
    assert!(!WhirConfig { folding_factor: FoldingFactor::Constant(7), ..config() }.is_usable());
    // the domain is too small, or too large
    assert!(!WhirConfig { starting_domain: Domain { log_size: 5 }, ..config() }.is_usable());
    assert!(!WhirConfig { starting_domain: Domain { log_size: 3 }, ..config() }.is_usable());
    assert!(!WhirConfig { starting_domain: Domain { log_size: 34 }, ..config() }.is_usable());
    // there are more queries than can be drawn
    let large = WhirConfig { starting_domain: Domain { log_size: 30 }, ..config() };
    assert!(large.is_usable());
    assert!(!WhirConfig { final_queries: usize::MAX, ..large }.is_usable());
    // a sumcheck that no statement started is started from two constraints or more
    let few = |ood_samples: usize, num_queries: usize, initial_statement: bool| {
        let round = RoundConfig { ood_samples, num_queries, ..config().round_parameters[0] };
        WhirConfig { round_parameters: vec![round], initial_statement, ..config() }
    };
    assert!(few(1, 0, true).is_usable());
    for (samples, queries) in [(0, 0), (1, 0), (0, 1)] {
        assert!(!few(samples, queries, false).is_usable());
    }
    for (samples, queries) in [(1, 1), (2, 0), (0, 2)] {
        assert!(few(samples, queries, false).is_usable());
    }
    // there is nothing left to query
    let rest = MultivariateParameters { num_variables: 3 };
    let factor = FoldingFactor::ConstantFromSecondRound(3, 0);
    let small = WhirConfig {
        mv_parameters: rest,
        folding_factor: factor,
        starting_domain: Domain { log_size: 3 },
        final_sumcheck_rounds: 0,
        ..config()
    };
    assert!(!small.is_usable());
}
