//! The field, the domains, the polynomials and the transforms, on concrete values.
use p3_field::extension::BinomialExtensionField;
use p3_field::{BasedVectorSpace, PrimeCharacteristicRing, PrimeField64, TwoAdicField};
use p3_goldilocks::Goldilocks;
use whir_prover::domain::{two_to_the, Domain};
use whir_prover::encoding::{encode_base, encode_ext};
use whir_prover::field::{Ext, Felt, ORDER};
use whir_prover::poly::coeffs::{CoefficientList, CoefficientStorage};
use whir_prover::poly::evals::{eq_weights_at, restrict_pairs, to_evaluations, EvaluationsList};
use whir_prover::poly::multilinear::{reversed, MultilinearPoint};
use whir_prover::poly::vector::{add_scaled, add_vectors, dot_product, zero_vector};
use whir_prover::utils::expand_randomness;

type E2 = BinomialExtensionField<Goldilocks, 2>;

fn ext(c0: u64, c1: u64) -> Ext {
    Ext { c0, c1 }
}

fn base(x: u64) -> Ext {
    ext(x, 0)
}

fn to_p3(x: Ext) -> E2 {
    E2::from_basis_coefficients_fn(|i| Goldilocks::from_u64([x.c0, x.c1][i]))
}

fn from_p3(x: E2) -> Ext {
    let c: &[Goldilocks] = x.as_basis_coefficients_slice();
    ext(c[0].as_canonical_u64(), c[1].as_canonical_u64())
}

fn samples() -> Vec<Ext> {
    let edge = [0, 1, 2, 7, 1 << 32, (1 << 32) - 1, ORDER - 1, ORDER - 2, 0x1234_5678_9abc_def0];
    let mut all = Vec::new();
    for &a in &edge {
        for &b in &edge {
            all.push(ext(a, b));
        }
    }
    all
}

#[test]
fn field_agrees_with_the_field_crate() {
    for &a in &samples() {
        for &b in &samples() {
            assert_eq!(a.add(b), from_p3(to_p3(a) + to_p3(b)));
            assert_eq!(a.sub(b), from_p3(to_p3(a) - to_p3(b)));
            assert_eq!(a.mul(b), from_p3(to_p3(a) * to_p3(b)));
        }
        for e in [0, 1, 2, 3, 17, 1 << 20, u64::MAX] {
            assert_eq!(a.exp_u64(e), from_p3(to_p3(a).exp_u64(e)));
        }
    }
}

#[test]
fn field_exact_values() {
    // (1 + 2X)(3 + 4X) = 3 + 8 * 7 + (4 + 6) X
    assert_eq!(ext(1, 2).mul(ext(3, 4)), ext(59, 10));
    assert_eq!(ext(ORDER - 1, 0).add(base(1)), Ext::zero());
    assert_eq!(Ext::zero().sub(base(1)), ext(ORDER - 1, 0));
    assert_eq!(base(2).exp_u64(10), base(1024));
    assert_eq!(Ext::from_base(Felt { value: 9 }), base(9));
    assert_eq!(Ext::one(), base(1));
}

#[test]
fn domain_generators() {
    for log_size in 0..=33 {
        let domain = Domain { log_size };
        assert!(domain.is_supported());
        assert_eq!(domain.element(1), from_p3(E2::two_adic_generator(log_size)));
        assert_eq!(domain.element(0), Ext::one());
        assert_eq!(domain.element(domain.size()), Ext::one());
        if log_size > 0 {
            assert_eq!(domain.element(domain.size() / 2), ext(ORDER - 1, 0));
        }
    }
    assert!(!Domain { log_size: 34 }.is_supported());
    assert_eq!(Domain { log_size: 10 }.size(), 1024);
    assert_eq!(Domain { log_size: 10 }.halved(), Domain { log_size: 9 });
    assert_eq!(two_to_the(12), 4096);
}

#[test]
fn powers_of_the_generator_generate_smaller_domains() {
    let domain = Domain { log_size: 20 };
    for k in 0..=20 {
        let smaller = Domain { log_size: 20 - k };
        assert_eq!(domain.element(1 << k), smaller.element(1));
    }
}

#[test]
fn elements_of_a_domain_differ() {
    let domain = Domain { log_size: 8 };
    let elements: Vec<Ext> = (0..256).map(|i| domain.element(i)).collect();
    for i in 0..256 {
        assert_eq!(elements[i].exp_u64(256), Ext::one());
        for j in 0..i {
            assert_ne!(elements[i], elements[j]);
        }
    }
}

#[test]
fn folding_sets_the_last_variables() {
    // c = 1 + 2 x2 + 3 x1 + 4 x1 x2
    let c = CoefficientList::new(vec![base(1), base(2), base(3), base(4)]);
    assert_eq!(c.num_variables(), 2);
    assert_eq!(c.num_coeffs(), 4);
    let folded = c.fold(&MultilinearPoint(vec![base(10)]));
    assert_eq!(folded.coeffs(), &vec![base(21), base(43)]);
    assert_eq!(folded.num_variables(), 1);
    let folded = folded.fold(&MultilinearPoint(vec![base(5)]));
    assert_eq!(folded.coeffs(), &vec![base(236)]);
    assert_eq!(c.evaluate(&MultilinearPoint(vec![base(5), base(10)])), base(236));
}

#[test]
fn storage_folds_alike_in_both_fields() {
    let values: Vec<u64> = (1..=8).collect();
    let small = CoefficientList::new(values.iter().map(|&x| Felt { value: x }).collect());
    let large = CoefficientList::new(values.iter().map(|&x| base(x)).collect());
    assert_eq!(small.lift(), large);
    let point = MultilinearPoint(vec![ext(3, 1), ext(0, 9)]);
    let from_small = CoefficientStorage::Base(small).fold(&point);
    let from_large = CoefficientStorage::Extension(large).fold(&point);
    assert_eq!(from_small, from_large);
}

#[test]
fn expanded_points_evaluate_univariate_polynomials() {
    let c: Vec<Ext> = (1..=16).map(|i| ext(i, i * i)).collect();
    let z = ext(11, 5);
    let point = MultilinearPoint::expand_from_univariate(z, 4);
    assert_eq!(point.0, vec![z.exp_u64(8), z.exp_u64(4), z.exp_u64(2), z]);
    let mut value = Ext::zero();
    for x in c.iter().rev() {
        value = value.mul(z).add(*x);
    }
    assert_eq!(CoefficientList::new(c).evaluate(&point), value);
}

#[test]
fn values_on_the_hypercube() {
    let c = vec![base(1), base(2), base(3), base(4)];
    assert_eq!(to_evaluations(&c), vec![base(1), base(3), base(4), base(10)]);
    let list = EvaluationsList { evals: to_evaluations(&c), num_variables: 2 };
    let point = MultilinearPoint(vec![base(5), base(10)]);
    assert_eq!(list.eval_extension(&point), base(236));
    assert_eq!(list.num_variables(), 2);
    // setting the last variable to one keeps the values at odd positions
    assert_eq!(restrict_pairs(&list.evals, base(1)), vec![base(3), base(10)]);
}

#[test]
fn equality_weights_pick_out_values() {
    let point = MultilinearPoint(vec![base(5), base(10)]);
    // (1 - 5)(1 - 10), (1 - 5) 10, 5 (1 - 10), 50
    let expected =
        vec![base(36), ext(ORDER - 40, 0), ext(ORDER - 45, 0), base(50)];
    assert_eq!(eq_weights_at(&point), expected);
    let c = vec![base(1), base(2), base(3), base(4)];
    assert_eq!(dot_product(&to_evaluations(&c), &expected), base(236));
}

#[test]
fn vectors() {
    let a = vec![base(1), base(2)];
    let b = vec![base(3), base(4)];
    assert_eq!(dot_product(&a, &b), base(11));
    assert_eq!(add_scaled(&a, base(10), &b), vec![base(31), base(42)]);
    assert_eq!(add_vectors(&a, &b), vec![base(4), base(6)]);
    assert_eq!(zero_vector(2), vec![Ext::zero(), Ext::zero()]);
    assert_eq!(reversed(&a), vec![base(2), base(1)]);
    assert_eq!(expand_randomness(base(3), 4), vec![base(1), base(3), base(9), base(27)]);
    assert_eq!(expand_randomness(base(3), 0), vec![]);
}

/// The value of the polynomial with the given coefficients at `z`.
fn horner(c: &[Ext], z: Ext) -> Ext {
    let mut value = Ext::zero();
    for x in c.iter().rev() {
        value = value.mul(z).add(*x);
    }
    value
}

#[test]
fn codewords_hold_the_values_of_the_interleaved_polynomials() {
    let coeffs: Vec<Ext> = (0..8).map(|i| ext(3 * i + 1, ORDER - 1 - i)).collect();
    for factor in 0..=3 {
        let word = encode_ext(&coeffs, 8, 6, factor);
        let width = 1 << factor;
        assert_eq!(word.len(), 64);
        let rows = Domain { log_size: 6 - factor };
        for (k, value) in word.iter().enumerate() {
            let column: Vec<Ext> = coeffs.iter().copied().skip(k % width).step_by(width).collect();
            assert_eq!(*value, horner(&column, rows.element(k / width)));
        }
    }
}

#[test]
fn codewords_over_the_base_field() {
    let coeffs: Vec<Felt> = (0..8).map(|i| Felt { value: ORDER - 1 - 5 * i }).collect();
    let lifted: Vec<Ext> = coeffs.iter().map(|&x| Ext::from_base(x)).collect();
    let word: Vec<Ext> =
        encode_base(&coeffs, 5, 2).into_iter().map(Ext::from_base).collect();
    assert_eq!(word, encode_ext(&lifted, 4, 5, 2));
}

#[test]
fn opened_rows_fold_to_the_folded_polynomial() {
    let coeffs: Vec<Ext> = (0..16).map(|i| ext(7 * i + 2, i)).collect();
    let (log_size, factor) = (6, 2);
    let word = encode_ext(&coeffs, 4, log_size, factor);
    let randomness = MultilinearPoint(vec![ext(5, 6), ext(7, 8)]);
    let folded = CoefficientList::new(coeffs).fold(&randomness);
    let domain = Domain { log_size: log_size - factor };
    for index in 0..16 {
        let row = CoefficientList::new(word[4 * index..4 * index + 4].to_vec());
        let point = MultilinearPoint::expand_from_univariate(domain.element(index), 2);
        assert_eq!(row.evaluate(&randomness), folded.evaluate(&point));
    }
}
