//! The code that polynomials are committed in: the coefficients, padded with zeros, are dealt out
//! in turn to `2^folding_factor` polynomials, and a row of the codeword holds the values of all of
//! them at one element of the domain.
use crate::dft::{codeword, column, dft_algebra_batch, dft_batch};
use crate::domain::{lemma_pow2_monotone, root_of_unity, two_to_the};
use crate::field::{lemma_times_zero, lemma_zero, Ext, Felt};
use crate::merkle::rows_of;
use crate::poly::coeffs::{
    evaluate, fold, law_expand_is_univariate, lemma_fold_canonical, lemma_fold_concat,
    lemma_fold_len, lemma_fold_linear, lemma_fold_zeros, lift_all, univariate,
};
use crate::poly::multilinear::expand;
use crate::poly::vector::{all_canonical, copy_vec, vadd, vscale, zeros};
use vstd::arithmetic::div_mod::{lemma_div_multiples_vanish, lemma_mod_multiples_basic};
use vstd::arithmetic::power2::{lemma2_to64, lemma_pow2_adds, lemma_pow2_pos, pow2};
use vstd::prelude::*;

verus! {

/// `c` followed by zeros, `n` entries in all.
pub open spec fn padded(c: Seq<Ext>, n: nat) -> Seq<Ext> {
    c + zeros((n - c.len()) as nat)
}

/// The codeword of the coefficients `c` over the domain of size `2^log_size`, row by row; a row
/// has `2^folding_factor` entries.
pub open spec fn encode(c: Seq<Ext>, log_size: nat, folding_factor: nat) -> Seq<Ext> {
    codeword(
        padded(c, pow2(log_size)),
        pow2(folding_factor),
        (log_size - folding_factor) as nat,
    )
}

/// The rows of the codeword.
pub open spec fn encoded_rows(c: Seq<Ext>, log_size: nat, folding_factor: nat) -> Seq<Seq<Ext>> {
    rows_of(encode(c, log_size, folding_factor), pow2(folding_factor))
}

pub proof fn lemma_sizes(log_size: nat, folding_factor: nat)
    requires
        folding_factor <= log_size,
    ensures
        pow2(log_size) == pow2(folding_factor) * pow2((log_size - folding_factor) as nat),
        pow2(log_size) % pow2(folding_factor) == 0,
        pow2(log_size) / pow2(folding_factor) == pow2((log_size - folding_factor) as nat),
        pow2(folding_factor) > 0,
        pow2(log_size) > 0,
{
    let h = (log_size - folding_factor) as nat;
    lemma_pow2_adds(folding_factor, h);
    lemma_pow2_pos(folding_factor);
    lemma_pow2_pos(log_size);
    let w = pow2(folding_factor);
    let m = pow2(h);
    assert(w * m == m * w) by (nonlinear_arith);
    lemma_mod_multiples_basic(m as int, w as int);
    lemma_div_multiples_vanish(m as int, w as int);
}

/// Encodes coefficients in the extension field.
pub fn encode_ext(coeffs: &Vec<Ext>, expansion: usize, log_size: usize, folding_factor: usize) -> (
    res: Vec<Ext>)
    requires
        coeffs@.len() * expansion == pow2(log_size as nat),
        pow2(log_size as nat) <= usize::MAX,
        folding_factor <= log_size <= folding_factor + 32,
    ensures
        res@ == encode(coeffs@, log_size as nat, folding_factor as nat),
        res@.len() == pow2(log_size as nat),
        all_canonical(res@),
{
    let len: usize = coeffs.len();
    let size: usize = len * expansion;
    let mut values: Vec<Ext> = copy_vec(coeffs);
    proof {
        lemma_sizes(log_size as nat, folding_factor as nat);
        lemma_pow2_monotone(folding_factor as nat, log_size as nat);
        assert(expansion > 0);
        assert(len <= len * expansion) by (nonlinear_arith)
            requires
                expansion > 0,
        ;
    }
    for i in len..size
        invariant
            len <= i <= size,
            len == coeffs@.len(),
            values@ == padded(coeffs@, i as nat),
    {
        values.push(Ext::zero());
        assert(values@ =~= padded(coeffs@, (i + 1) as nat));
    }
    let width: usize = two_to_the(folding_factor);
    assert(values@.len() == width * pow2((log_size - folding_factor) as nat));
    dft_algebra_batch(&values, width)
}

/// Encodes coefficients in the base field.
pub fn encode_base(coeffs: &Vec<Felt>, log_size: usize, folding_factor: usize) -> (res: Vec<Felt>)
    requires
        coeffs@.len() <= pow2(log_size as nat) <= usize::MAX,
        folding_factor <= log_size <= folding_factor + 32,
    ensures
        lift_all(res@) == encode(lift_all(coeffs@), log_size as nat, folding_factor as nat),
        res@.len() == pow2(log_size as nat),
        all_canonical(lift_all(res@)),
{
    let len: usize = coeffs.len();
    let size: usize = two_to_the(log_size);
    let mut values: Vec<Felt> = Vec::new();
    for i in 0..size
        invariant
            len == coeffs@.len(),
            len <= size,
            values@.len() == i,
            forall|k: int|
                0 <= k < i ==> values@[k] == if k < len {
                    coeffs@[k]
                } else {
                    Felt { value: 0 }
                },
    {
        if i < len {
            values.push(coeffs[i]);
        } else {
            values.push(Felt { value: 0 });
        }
    }
    proof {
        lemma_sizes(log_size as nat, folding_factor as nat);
        lemma_pow2_monotone(folding_factor as nat, log_size as nat);
        assert(lift_all(values@) =~= padded(lift_all(coeffs@), pow2(log_size as nat)));
    }
    let width: usize = two_to_the(folding_factor);
    assert(values@.len() == width * pow2((log_size - folding_factor) as nat));
    let res: Vec<Felt> = dft_batch(&values, width);
    assert(lift_all(res@) == codeword(
        lift_all(values@),
        width as nat,
        (log_size - folding_factor) as nat,
    ));
    assert(lift_all(res@).len() == res@.len());
    res
}

// What an opened row says about the folded polynomial.

/// The values at `z` of the columns of a matrix.
spec fn row_at(values: Seq<Ext>, width: nat, z: Ext) -> Seq<Ext> {
    Seq::new(width, |j: int| univariate(column(values, width, j), z))
}

/// Folding a row of values is evaluating the folded polynomial.
proof fn lemma_fold_row(values: Seq<Ext>, m: nat, z: Ext, point: Seq<Ext>)
    requires
        values.len() == m * pow2(point.len()),
    ensures
        fold(row_at(values, pow2(point.len()), z), point)[0] == univariate(fold(values, point), z),
    decreases m,
{
    let w = pow2(point.len());
    lemma_pow2_pos(point.len());
    let row = row_at(values, w, z);
    lemma_fold_len(row, point, point.len());
    lemma2_to64();
    if m == 0 {
        assert(values.len() == 0) by (nonlinear_arith)
            requires
                values.len() == m * w,
                m == 0,
        ;
        assert(row =~= zeros(w)) by {
            assert forall|j: int| 0 <= j < w implies #[trigger] row[j] == zeros(w)[j] by {
                assert(column(values, w, j).len() == 0);
            }
        }
        lemma_fold_zeros(w, point);
        assert(values =~= zeros(0));
        lemma_fold_zeros(0, point);
        lemma_fold_empty(values, point);
    } else {
        let head = values.take(w as int);
        let rest = values.skip(w as int);
        let k = (m - 1) as nat;
        assert(m * w == w + k * w) by (nonlinear_arith)
            requires
                m == k + 1,
        ;
        assert(values =~= head + rest);
        lemma_fold_row(rest, k, z, point);
        let tail = row_at(rest, w, z);
        assert(values.len() / w == m && rest.len() / w == k) by {
            assert(m * w == w * m && k * w == w * k) by (nonlinear_arith);
            lemma_div_multiples_vanish(m as int, w as int);
            lemma_div_multiples_vanish(k as int, w as int);
        }
        assert forall|j: int| 0 <= j < w implies #[trigger] row[j] == vadd(
            head,
            vscale(z, tail),
        )[j] by {
            let c = column(values, w, j);
            assert forall|i: int| 0 <= i < k implies c.skip(1)[i] == column(rest, w, j)[i] by {
                assert((i + 1) * w == i * w + w) by (nonlinear_arith);
                assert(0 <= i * w <= (k - 1) * w) by (nonlinear_arith)
                    requires
                        0 <= i <= k - 1,
                        w > 0,
                ;
                assert((k - 1) * w + w == k * w) by (nonlinear_arith);
            }
            assert(c.skip(1) =~= column(rest, w, j));
            assert(c[0] == values[0 * w + j]);
        }
        assert(row =~= vadd(head, vscale(z, tail)));
        lemma_fold_linear(head, z, tail, point);
        lemma_fold_len(head, point, point.len());
        lemma_fold_concat(head, rest, point);
        vstd::arithmetic::div_mod::lemma_mod_self_0(w as int);
        assert(fold(values, point).skip(1) =~= fold(rest, point));
    }
}

proof fn lemma_fold_empty(c: Seq<Ext>, point: Seq<Ext>)
    requires
        c.len() == 0,
    ensures
        fold(c, point).len() == 0,
    decreases point.len(),
{
    if point.len() > 0 {
        lemma_fold_empty(crate::poly::coeffs::fold_once(c, point.last()), point.drop_last());
    }
}

/// Zeros behind the coefficients do not change the value.
proof fn lemma_univariate_padded(c: Seq<Ext>, k: nat, z: Ext)
    ensures
        univariate(c + zeros(k), z) == univariate(c, z),
    decreases c.len() + k,
{
    let all = c + zeros(k);
    if c.len() > 0 {
        assert(all.skip(1) =~= c.skip(1) + zeros(k));
        lemma_univariate_padded(c.skip(1), k, z);
    } else if k > 0 {
        assert(all.skip(1) =~= c + zeros((k - 1) as nat));
        lemma_univariate_padded(c, (k - 1) as nat, z);
        lemma_times_zero(z);
        lemma_zero(Ext::zero_spec());
    }
}

/// An opened row, evaluated at the folding randomness, is the value of the folded polynomial at
/// the element of the folded domain that the row belongs to.
pub proof fn law_open_is_fold(
    c: Seq<Ext>,
    n: nat,
    log_size: nat,
    randomness: Seq<Ext>,
    index: nat,
)
    requires
        c.len() == pow2(n),
        all_canonical(c),
        randomness.len() <= n <= log_size,
        index < pow2((log_size - randomness.len()) as nat),
    ensures
        ({
            let row = encoded_rows(c, log_size, randomness.len())[index as int];
            let z = root_of_unity((log_size - randomness.len()) as nat).power(index);
            &&& row.len() == pow2(randomness.len())
            &&& evaluate(row, randomness) == evaluate(
                fold(c, randomness),
                expand(z, (n - randomness.len()) as nat),
            )
        }),
{
    let f = randomness.len();
    let w = pow2(f);
    let h = (log_size - f) as nat;
    let m = pow2(h);
    let values = padded(c, pow2(log_size));
    let z = root_of_unity(h).power(index);
    lemma_sizes(log_size, f);
    lemma_pow2_monotone(n, log_size);
    lemma_sizes(n, f);
    let word = encode(c, log_size, f);
    let row = encoded_rows(c, log_size, f)[index as int];
    assert(index * w + w <= m * w) by (nonlinear_arith)
        requires
            index + 1 <= m,
    ;
    assert(m * w == w * m) by (nonlinear_arith);
    assert(row =~= row_at(values, w, z)) by {
        assert forall|j: int| 0 <= j < w implies #[trigger] row[j] == row_at(values, w, z)[j] by {
            let k = index * w + j;
            assert(row[j] == word[k]);
            assert(k % (w as int) == j && k / (w as int) == index) by {
                vstd::arithmetic::div_mod::lemma_fundamental_div_mod_converse(
                    k,
                    w as int,
                    index as int,
                    j,
                );
            }
        }
    }
    lemma_fold_row(values, m, z, randomness);
    lemma_fold_concat(c, zeros((pow2(log_size) - c.len()) as nat), randomness);
    lemma_fold_zeros((pow2(log_size) - c.len()) as nat, randomness);
    let k = fold(zeros((pow2(log_size) - c.len()) as nat), randomness).len();
    lemma_univariate_padded(fold(c, randomness), k, z);
    lemma_fold_len(c, randomness, n);
    lemma_fold_canonical(c, randomness);
    law_expand_is_univariate(fold(c, randomness), z, (n - f) as nat);
}

} // verus!
