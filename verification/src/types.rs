//! The outside types that commitments are made of. Verification treats their values as opaque.
use p3_field::extension::BinomialExtensionField;
use p3_goldilocks::Goldilocks;
use p3_matrix::dense::DenseMatrix;
use p3_matrix::extension::FlatMatrixView;
use p3_merkle_tree::MerkleTree;
use vstd::prelude::*;

verus! {

/// Trusted: declares `p3_merkle_tree::MerkleTree`, opaque.
#[verifier::external_type_specification]
#[verifier::external_body]
#[verifier::reject_recursive_types(F)]
#[verifier::reject_recursive_types(W)]
#[verifier::reject_recursive_types(M)]
pub struct ExMerkleTree<F, W, M, const DIGEST_ELEMS: usize>(MerkleTree<F, W, M, DIGEST_ELEMS>);

/// Trusted: declares `p3_goldilocks::Goldilocks`, opaque.
#[verifier::external_type_specification]
#[verifier::external_body]
pub struct ExGoldilocks(Goldilocks);

/// Trusted: declares `p3_matrix::dense::DenseMatrix`, opaque.
#[verifier::external_type_specification]
#[verifier::external_body]
#[verifier::reject_recursive_types(T)]
#[verifier::reject_recursive_types(V)]
pub struct ExDenseMatrix<T, V>(DenseMatrix<T, V>);

/// Trusted: declares `p3_field::extension::BinomialExtensionField`, opaque.
#[verifier::external_type_specification]
#[verifier::external_body]
#[verifier::reject_recursive_types(F)]
#[verifier::reject_recursive_types(A)]
pub struct ExBinomialExtensionField<F, const D: usize, A>(BinomialExtensionField<F, D, A>);

/// Trusted: declares `p3_matrix::extension::FlatMatrixView`, opaque.
#[verifier::external_type_specification]
#[verifier::external_body]
#[verifier::reject_recursive_types(F)]
#[verifier::reject_recursive_types(EF)]
#[verifier::reject_recursive_types(Inner)]
pub struct ExFlatMatrixView<F, EF, Inner>(FlatMatrixView<F, EF, Inner>);

/// The quadratic extension of the field, as the commitments and transforms take it.
pub type ExtField = BinomialExtensionField<Goldilocks, 2>;

} // verus!
