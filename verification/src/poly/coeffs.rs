//! Multilinear polynomials by their coefficients.
//!
//! The coefficient at index `i` belongs to the monomial whose variables are the ones bits of `i`,
//! the last variable being the lowest bit.
use crate::field::{
    lemma_distrib, lemma_one, lemma_plus_assoc, lemma_times_assoc, lemma_times_zero, lemma_zero,
    Ext, Felt,
};
use crate::poly::multilinear::{expand, lemma_expand_len, MultilinearPoint};
use crate::poly::vector::{
    all_canonical, copy_vec, dot, even, lemma_dot_scale, lemma_plus_swap, lemma_times_swap,
    lemma_vec_canonical, odd, powers, vadd, vscale, zeros,
};
use vstd::arithmetic::power2::{lemma_pow2_pos, lemma_pow2_unfold, pow2};
use vstd::prelude::*;

verus! {

/// The polynomial in one variable less that is left when the last variable is set to `r`.
pub open spec fn fold_once(c: Seq<Ext>, r: Ext) -> Seq<Ext> {
    vadd(even(c), vscale(r, odd(c)))
}

/// The polynomial that is left when the last variables are set to `point`.
pub open spec fn fold(c: Seq<Ext>, point: Seq<Ext>) -> Seq<Ext>
    decreases point.len(),
{
    if point.len() == 0 {
        c
    } else {
        fold(fold_once(c, point.last()), point.drop_last())
    }
}

/// The value at `point` of the polynomial with coefficients `c`, one variable per coordinate.
pub open spec fn evaluate(c: Seq<Ext>, point: Seq<Ext>) -> Ext {
    fold(c, point)[0]
}

/// The value at `z` of the univariate polynomial with coefficients `c`.
pub open spec fn univariate(c: Seq<Ext>, z: Ext) -> Ext
    decreases c.len(),
{
    if c.len() == 0 {
        Ext::zero_spec()
    } else {
        c[0].plus(z.times(univariate(c.skip(1), z)))
    }
}

/// The elements of the base field inside the extension.
pub open spec fn lift_all(c: Seq<Felt>) -> Seq<Ext> {
    Seq::new(c.len(), |i: int| Ext::lift(c[i]))
}

/// A list of `2^num_variables` coefficients.
#[derive(Debug, PartialEq, Eq)]
pub struct CoefficientList<F> {
    pub coeffs: Vec<F>,
    pub num_variables: usize,
}

/// The coefficients of a committed polynomial, in the field that they were committed in.
pub enum CoefficientStorage {
    Base(CoefficientList<Felt>),
    Extension(CoefficientList<Ext>),
}

impl<F> View for CoefficientList<F> {
    type V = Seq<F>;

    open spec fn view(&self) -> Seq<F> {
        self.coeffs@
    }
}

impl<F> CoefficientList<F> {
    pub open spec fn wf(&self) -> bool {
        self.coeffs@.len() == pow2(self.num_variables as nat)
    }

    /// Reads a list whose length is a power of two as coefficients.
    pub fn new(coeffs: Vec<F>) -> (r: Self)
        requires
            exists|n: nat| coeffs@.len() == pow2(n),
        ensures
            r@ == coeffs@,
            r.wf(),
    {
        let ghost n = choose|n: nat| coeffs@.len() == pow2(n);
        let len: usize = coeffs.len();
        let mut left: usize = len;
        let mut num_variables: usize = 0;
        proof {
            lemma_pow2_pos(n);
        }
        while left > 1
            invariant
                num_variables <= n,
                left == pow2((n - num_variables) as nat),
                num_variables + left <= len,
                len == pow2(n),
            decreases left,
        {
            proof {
                lemma_pow2_one_only((n - num_variables) as nat);
                lemma_pow2_unfold((n - num_variables) as nat);
            }
            left = left / 2;
            num_variables = num_variables + 1;
        }
        proof {
            lemma_pow2_one_only((n - num_variables) as nat);
            lemma_pow2_pos((n - num_variables) as nat);
        }
        CoefficientList { coeffs, num_variables }
    }

    pub fn num_variables(&self) -> (n: usize)
        ensures
            n == self.num_variables,
    {
        self.num_variables
    }

    pub fn num_coeffs(&self) -> (n: usize)
        ensures
            n == self@.len(),
    {
        self.coeffs.len()
    }

    pub fn coeffs(&self) -> (r: &Vec<F>)
        ensures
            r@ == self@,
    {
        &self.coeffs
    }
}

proof fn lemma_pow2_one_only(n: nat)
    ensures
        pow2(n) <= 1 ==> n == 0,
        n == 0 ==> pow2(n) == 1,
{
    if n == 0 {
        vstd::arithmetic::power2::lemma2_to64();
    } else {
        lemma_pow2_unfold(n);
        lemma_pow2_pos((n - 1) as nat);
    }
}

impl CoefficientList<Felt> {
    /// The same polynomial over the extension field.
    pub fn lift(&self) -> (r: CoefficientList<Ext>)
        ensures
            r@ == lift_all(self@),
            r.num_variables == self.num_variables,
    {
        CoefficientList { coeffs: lift_vec(&self.coeffs), num_variables: self.num_variables }
    }
}

/// Takes each element into the extension field.
pub fn lift_vec(v: &Vec<Felt>) -> (r: Vec<Ext>)
    ensures
        r@ == lift_all(v@),
{
    let n: usize = v.len();
    let mut r: Vec<Ext> = Vec::new();
    for i in 0..n
        invariant
            n == v@.len(),
            r@.len() == i,
            forall|k: int| 0 <= k < i ==> r@[k] == Ext::lift(v@[k]),
    {
        r.push(Ext::from_base(v[i]));
    }
    assert(r@ =~= lift_all(v@));
    r
}

impl CoefficientList<Ext> {
    /// A list with the same coefficients.
    pub fn duplicate(&self) -> (r: CoefficientList<Ext>)
        ensures
            r@ == self@,
            r.num_variables == self.num_variables,
    {
        CoefficientList { coeffs: copy_vec(&self.coeffs), num_variables: self.num_variables }
    }

    /// Sets the last variables to the coordinates of `folding_randomness`.
    pub fn fold(&self, folding_randomness: &MultilinearPoint) -> (r: CoefficientList<Ext>)
        requires
            self.wf(),
            folding_randomness@.len() <= self.num_variables,
        ensures
            r@ == fold(self@, folding_randomness@),
            r.num_variables == self.num_variables - folding_randomness@.len(),
            r.wf(),
    {
        let mut cur: CoefficientList<Ext> = self.duplicate();
        let mut left: usize = folding_randomness.0.len();
        let ghost point = folding_randomness@;
        assert(point.take(left as int) =~= point);
        while left > 0
            invariant
                point == folding_randomness@,
                left <= point.len() <= self.num_variables,
                cur.wf(),
                cur.num_variables == self.num_variables - (point.len() - left),
                fold(cur@, point.take(left as int)) == fold(self@, point),
            decreases left,
        {
            left = left - 1;
            proof {
                lemma_pow2_unfold(cur.num_variables as nat);
                assert(point.take(left + 1).drop_last() =~= point.take(left as int));
            }
            cur = CoefficientList {
                coeffs: fold_pairs(&cur.coeffs, folding_randomness.0[left]),
                num_variables: cur.num_variables - 1,
            };
        }
        cur
    }

    /// The value of the polynomial at `point`.
    pub fn evaluate(&self, point: &MultilinearPoint) -> (r: Ext)
        requires
            self.wf(),
            point@.len() == self.num_variables,
        ensures
            r == evaluate(self@, point@),
    {
        let value: CoefficientList<Ext> = self.fold(point);
        proof {
            lemma_pow2_one_only(0);
        }
        value.coeffs[0]
    }
}

impl CoefficientStorage {
    /// The coefficients in the extension field.
    pub open spec fn lifted(&self) -> Seq<Ext> {
        match self {
            CoefficientStorage::Base(c) => lift_all(c@),
            CoefficientStorage::Extension(c) => c@,
        }
    }

    pub open spec fn num_variables_spec(&self) -> usize {
        match self {
            CoefficientStorage::Base(c) => c.num_variables,
            CoefficientStorage::Extension(c) => c.num_variables,
        }
    }

    pub open spec fn wf(&self) -> bool {
        self.lifted().len() == pow2(self.num_variables_spec() as nat)
    }

    /// Sets the last variables to the coordinates of `folding_randomness`.
    pub fn fold(&self, folding_randomness: &MultilinearPoint) -> (r: CoefficientList<Ext>)
        requires
            self.wf(),
            folding_randomness@.len() <= self.num_variables_spec(),
        ensures
            r@ == fold(self.lifted(), folding_randomness@),
            r.num_variables == self.num_variables_spec() - folding_randomness@.len(),
            r.wf(),
    {
        match self {
            CoefficientStorage::Base(c) => c.lift().fold(folding_randomness),
            CoefficientStorage::Extension(c) => c.fold(folding_randomness),
        }
    }
}

fn fold_pairs(c: &Vec<Ext>, r: Ext) -> (res: Vec<Ext>)
    ensures
        res@ == fold_once(c@, r),
{
    let len: usize = c.len();
    let mut res: Vec<Ext> = Vec::new();
    for i in 0..len / 2
        invariant
            len == c@.len(),
            res@.len() == i,
            forall|k: int| 0 <= k < i ==> res@[k] == c@[2 * k].plus(r.times(c@[2 * k + 1])),
    {
        res.push(c[2 * i].add(r.mul(c[2 * i + 1])));
    }
    assert(res@ =~= fold_once(c@, r));
    res
}

// Folding.

/// Folding leaves a power of two of coefficients.
pub proof fn lemma_fold_len(c: Seq<Ext>, point: Seq<Ext>, n: nat)
    requires
        c.len() == pow2(n),
        point.len() <= n,
    ensures
        fold(c, point).len() == pow2((n - point.len()) as nat),
    decreases point.len(),
{
    if point.len() > 0 {
        lemma_pow2_unfold(n);
        lemma_fold_len(fold_once(c, point.last()), point.drop_last(), (n - 1) as nat);
    }
}

pub proof fn lemma_fold_canonical(c: Seq<Ext>, point: Seq<Ext>)
    requires
        all_canonical(c),
    ensures
        all_canonical(fold(c, point)),
    decreases point.len(),
{
    if point.len() > 0 {
        lemma_vec_canonical(point.last(), even(c), vscale(point.last(), odd(c)));
        lemma_fold_canonical(fold_once(c, point.last()), point.drop_last());
    }
}

/// Folding by the last coordinates and then by the first ones is folding by all of them.
pub proof fn law_fold_compose(c: Seq<Ext>, first: Seq<Ext>, last: Seq<Ext>)
    ensures
        fold(c, first + last) == fold(fold(c, last), first),
    decreases last.len(),
{
    if last.len() == 0 {
        assert(first + last =~= first);
    } else {
        assert((first + last).drop_last() =~= first + last.drop_last());
        law_fold_compose(fold_once(c, last.last()), first, last.drop_last());
    }
}

/// Folding is linear.
pub proof fn lemma_fold_linear(a: Seq<Ext>, z: Ext, b: Seq<Ext>, point: Seq<Ext>)
    requires
        a.len() == b.len(),
    ensures
        fold(vadd(a, vscale(z, b)), point) == vadd(fold(a, point), vscale(z, fold(b, point))),
        fold(a, point).len() == fold(b, point).len(),
    decreases point.len(),
{
    if point.len() > 0 {
        let r = point.last();
        let (a1, b1) = (fold_once(a, r), fold_once(b, r));
        assert forall|k: int| 0 <= k < a.len() / 2 implies (#[trigger] fold_once(
            vadd(a, vscale(z, b)),
            r,
        )[k]) == vadd(a1, vscale(z, b1))[k] by {
            let (a_e, a_o, b_e, b_o) = (a[2 * k], a[2 * k + 1], b[2 * k], b[2 * k + 1]);
            lemma_distrib(r, a_o, z.times(b_o));
            lemma_plus_swap(a_e, z.times(b_e), r.times(a_o), r.times(z.times(b_o)));
            lemma_times_swap(r, z, b_o);
            lemma_distrib(z, b_e, r.times(b_o));
        }
        assert(fold_once(vadd(a, vscale(z, b)), r) =~= vadd(a1, vscale(z, b1)));
        lemma_fold_linear(a1, z, b1, point.drop_last());
    }
}

/// Folding acts on each block of `2^|point|` coefficients by itself.
pub proof fn lemma_fold_concat(a: Seq<Ext>, b: Seq<Ext>, point: Seq<Ext>)
    requires
        a.len() % pow2(point.len()) == 0,
    ensures
        fold(a + b, point) == fold(a, point) + fold(b, point),
    decreases point.len(),
{
    if point.len() > 0 {
        let r = point.last();
        let w = pow2((point.len() - 1) as nat);
        lemma_pow2_unfold(point.len());
        lemma_pow2_pos((point.len() - 1) as nat);
        let m = a.len() / (2 * w);
        assert(a.len() == 2 * (w * m)) by {
            vstd::arithmetic::div_mod::lemma_fundamental_div_mod(a.len() as int, (2 * w) as int);
            assert((2 * w) * m == 2 * (w * m)) by (nonlinear_arith);
        }
        assert(even(a + b) =~= even(a) + even(b));
        assert(odd(a + b) =~= odd(a) + odd(b));
        assert(fold_once(a + b, r) =~= fold_once(a, r) + fold_once(b, r));
        assert(fold_once(a, r).len() % w == 0) by {
            vstd::arithmetic::div_mod::lemma_mod_multiples_basic(m as int, w as int);
            assert(w * m == m * w) by (nonlinear_arith);
        }
        lemma_fold_concat(fold_once(a, r), fold_once(b, r), point.drop_last());
    } else {
        assert(fold(a + b, point) =~= fold(a, point) + fold(b, point));
    }
}

/// Folding the zero vector leaves the zero vector.
pub proof fn lemma_fold_zeros(n: nat, point: Seq<Ext>)
    ensures
        fold(zeros(n), point) == zeros(fold(zeros(n), point).len()),
    decreases point.len(),
{
    if point.len() > 0 {
        let r = point.last();
        lemma_times_zero(r);
        lemma_zero(Ext::zero_spec());
        assert(fold_once(zeros(n), r) =~= zeros(n / 2));
        lemma_fold_zeros(n / 2, point.drop_last());
    } else {
        assert(zeros(n).len() == n);
    }
}

// Univariate evaluation.

/// `f(z) = g(z^2)` for the `g` that is left of `f` when its last variable is set to `z`.
proof fn lemma_univariate_fold(c: Seq<Ext>, z: Ext)
    requires
        c.len() % 2 == 0,
    ensures
        univariate(c, z) == univariate(fold_once(c, z), z.times(z)),
    decreases c.len(),
{
    if c.len() > 0 {
        let rest = c.skip(2);
        let z2 = z.times(z);
        assert(c.skip(1).skip(1) =~= rest);
        assert(fold_once(c, z).skip(1) =~= fold_once(rest, z));
        lemma_univariate_fold(rest, z);
        let u = univariate(rest, z);
        assert(univariate(c, z) == c[0].plus(z.times(c[1].plus(z.times(u))))) by {
            reveal_with_fuel(univariate, 2);
        }
        lemma_distrib(z, c[1], z.times(u));
        lemma_times_assoc(z, z, u);
        lemma_plus_assoc(c[0], z.times(c[1]), z2.times(u));
        assert(fold_once(c, z)[0] == c[0].plus(z.times(c[1])));
    }
}

/// At the point expanded from `z` a multilinear polynomial has the value that the univariate
/// polynomial with the same coefficients has at `z`.
pub proof fn law_expand_is_univariate(c: Seq<Ext>, z: Ext, n: nat)
    requires
        c.len() == pow2(n),
        all_canonical(c),
    ensures
        evaluate(c, expand(z, n)) == univariate(c, z),
    decreases n,
{
    lemma_expand_len(z, n);
    if n == 0 {
        lemma_pow2_one_only(0);
        assert(univariate(c.skip(1), z) == Ext::zero_spec());
        lemma_times_zero(z);
        lemma_zero(c[0]);
    } else {
        lemma_pow2_unfold(n);
        lemma_univariate_fold(c, z);
        lemma_vec_canonical(z, even(c), vscale(z, odd(c)));
        assert(expand(z, n).drop_last() =~= expand(z.times(z), (n - 1) as nat));
        law_expand_is_univariate(fold_once(c, z), z.times(z), (n - 1) as nat);
    }
}

// What evaluation computes.

/// The value of a polynomial in one variable is the sum of its coefficients times the powers of
/// the argument.
pub proof fn law_univariate(c: Seq<Ext>, z: Ext)
    requires
        all_canonical(c),
    ensures
        univariate(c, z) == dot(powers(z, c.len()), c),
    decreases c.len(),
{
    if c.len() > 0 {
        let (rest, p) = (c.skip(1), powers(z, c.len()));
        law_univariate(rest, z);
        let q = powers(z, rest.len());
        assert(p.skip(1) =~= vscale(z, q));
        lemma_dot_scale(z, q, rest);
        assert(p[0] == Ext::one_spec());
        lemma_one(c[0]);
    }
}

/// Taking coefficients into the extension field keeps each of them in its place.
pub proof fn law_lift_all(c: Seq<Felt>)
    ensures
        lift_all(c).len() == c.len(),
        forall|i: int|
            0 <= i < c.len() ==> #[trigger] lift_all(c)[i] == (Ext { c0: c[i].value, c1: 0 }),
{
}

/// The lists and the storage stand for the coefficients that they hold.
pub proof fn law_coefficients_view<F>(list: CoefficientList<F>)
    ensures
        list@ == list.coeffs@,
        list.wf() <==> list.coeffs@.len() == pow2(list.num_variables as nat),
{
}

/// The storage stands for the coefficients that it holds, in the extension field.
pub proof fn law_storage(storage: CoefficientStorage)
    ensures
        storage matches CoefficientStorage::Base(list) ==> {
            &&& storage.lifted() == lift_all(list.coeffs@)
            &&& storage.num_variables_spec() == list.num_variables
        },
        storage matches CoefficientStorage::Extension(list) ==> {
            &&& storage.lifted() == list.coeffs@
            &&& storage.num_variables_spec() == list.num_variables
        },
{
}

/// Setting the last variable to `r` leaves, for each monomial in the others, the coefficient
/// without the last variable plus `r` times that with it; setting no variable changes nothing.
pub proof fn law_fold_once(c: Seq<Ext>, r: Ext, n: nat)
    requires
        c.len() == pow2(n + 1),
    ensures
        fold(c, Seq::empty()) == c,
        fold(c, seq![r]).len() == pow2(n),
        forall|i: int|
            0 <= i < pow2(n) ==> #[trigger] fold(c, seq![r])[i] == c[2 * i].plus(
                r.times(c[2 * i + 1]),
            ),
{
    lemma_pow2_unfold(n + 1);
    reveal_with_fuel(fold, 2);
    assert(seq![r].drop_last() =~= Seq::<Ext>::empty());
    assert(fold(c, seq![r]) == fold_once(c, r));
}

} // verus!
