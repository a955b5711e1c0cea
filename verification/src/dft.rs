//! Evaluation of interleaved polynomials over a domain.
use crate::domain::root_of_unity;
use crate::field::{Ext, Felt};
use crate::poly::coeffs::{lift_all, univariate};
use crate::poly::vector::all_canonical;
use crate::types::ExtField;
use p3_dft::{Radix2Dit, TwoAdicSubgroupDft};
use p3_field::{BasedVectorSpace, PrimeCharacteristicRing, PrimeField64};
use p3_goldilocks::Goldilocks;
use p3_matrix::Matrix;
use p3_matrix::dense::RowMajorMatrix;
use vstd::arithmetic::power2::pow2;
use vstd::prelude::*;

verus! {

/// Column `j` of the matrix of width `width` that is stored row by row in `values`.
pub open spec fn column(values: Seq<Ext>, width: nat, j: int) -> Seq<Ext> {
    Seq::new(values.len() / width, |k: int| values[k * width + j])
}

/// The matrix, row by row, whose row `i` holds the values at the `i`-th power of the generator of
/// order `2^log_height` of the polynomials whose coefficients are the columns of `values`.
pub open spec fn codeword(values: Seq<Ext>, width: nat, log_height: nat) -> Seq<Ext> {
    Seq::new(
        values.len(),
        |k: int|
            univariate(
                column(values, width, k % (width as int)),
                root_of_unity(log_height).power((k / (width as int)) as nat),
            ),
    )
}

/// Evaluates each column as a polynomial over the domain that has as many elements as the matrix
/// has rows.
///
/// Trusted: calls `TwoAdicSubgroupDft::dft_algebra_batch` of `Radix2Dit`, with the extension field
/// as the algebra. It transforms each column with the powers of the generator of the height, in
/// their order; a height that is no power of two, or beyond `2^32`, makes it panic.
#[verifier::external_body]
pub(crate) fn dft_algebra_batch(values: &Vec<Ext>, width: usize) -> (res: Vec<Ext>)
    requires
        width > 0,
        exists|h: nat| h <= 32 && values@.len() == width * #[trigger] pow2(h),
    ensures
        all_canonical(res@),
        forall|h: nat|
            values@.len() == width * #[trigger] pow2(h) ==> res@ == codeword(
                values@,
                width as nat,
                h,
            ),
{
    let values = values.iter().map(|x| {
        ExtField::from_basis_coefficients_fn(|i| Goldilocks::from_u64([x.c0, x.c1][i]))
    }).collect();
    let dft = Radix2Dit::<Goldilocks>::default();
    let out = dft.dft_algebra_batch(RowMajorMatrix::new(values, width));
    out.values.iter().map(|x| {
        let c: &[Goldilocks] = x.as_basis_coefficients_slice();
        Ext { c0: c[0].as_canonical_u64(), c1: c[1].as_canonical_u64() }
    }).collect()
}

/// Evaluates each column as a polynomial over the domain that has as many elements as the matrix
/// has rows.
///
/// Trusted: calls `TwoAdicSubgroupDft::dft_batch` of `Radix2Dit`. It transforms each column with
/// the powers of the generator of the height, in their order; a height that is no power of two, or
/// beyond `2^32`, makes it panic.
#[verifier::external_body]
pub(crate) fn dft_batch(values: &Vec<Felt>, width: usize) -> (res: Vec<Felt>)
    requires
        width > 0,
        exists|h: nat| h <= 32 && values@.len() == width * #[trigger] pow2(h),
    ensures
        all_canonical(lift_all(res@)),
        forall|h: nat|
            values@.len() == width * #[trigger] pow2(h) ==> lift_all(res@) == codeword(
                lift_all(values@),
                width as nat,
                h,
            ),
{
    let values = values.iter().map(|x| Goldilocks::from_u64(x.value)).collect();
    let dft = Radix2Dit::<Goldilocks>::default();
    let out = dft.dft_batch(RowMajorMatrix::new(values, width));
    out.to_row_major_matrix().values.iter().map(|x| Felt { value: x.as_canonical_u64() }).collect()
}

} // verus!
