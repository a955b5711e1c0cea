//! Vectors of field elements: the pointwise operations, the splitting by parity of the index and
//! the dot product that the polynomial code is specified with.
use crate::field::{
    lemma_canonical, lemma_distrib, lemma_minus_plus, lemma_plus_assoc, lemma_plus_comm,
    lemma_times_assoc, lemma_times_comm, lemma_times_zero, lemma_zero, Ext,
};
use vstd::prelude::*;

verus! {

/// Every entry is canonical.
pub open spec fn all_canonical(s: Seq<Ext>) -> bool {
    forall|i: int| 0 <= i < s.len() ==> (#[trigger] s[i]).canonical()
}

/// The zero vector of length `n`.
pub open spec fn zeros(n: nat) -> Seq<Ext> {
    Seq::new(n, |i: int| Ext::zero_spec())
}

/// The pointwise sum.
pub open spec fn vadd(a: Seq<Ext>, b: Seq<Ext>) -> Seq<Ext> {
    Seq::new(a.len(), |i: int| a[i].plus(b[i]))
}

/// The pointwise difference.
pub open spec fn vsub(a: Seq<Ext>, b: Seq<Ext>) -> Seq<Ext> {
    Seq::new(a.len(), |i: int| a[i].minus(b[i]))
}

/// The multiple of a vector.
pub open spec fn vscale(r: Ext, a: Seq<Ext>) -> Seq<Ext> {
    Seq::new(a.len(), |i: int| r.times(a[i]))
}

/// The entries at the even positions.
pub open spec fn even(a: Seq<Ext>) -> Seq<Ext> {
    Seq::new(a.len() / 2, |i: int| a[2 * i])
}

/// The entries at the odd positions.
pub open spec fn odd(a: Seq<Ext>) -> Seq<Ext> {
    Seq::new(a.len() / 2, |i: int| a[2 * i + 1])
}

/// The vector whose even entries are `a` and whose odd entries are `b`.
pub open spec fn interleave(a: Seq<Ext>, b: Seq<Ext>) -> Seq<Ext> {
    Seq::new(2 * a.len(), |i: int| if i % 2 == 0 {
        a[i / 2]
    } else {
        b[i / 2]
    })
}

/// The dot product.
pub open spec fn dot(a: Seq<Ext>, b: Seq<Ext>) -> Ext
    decreases a.len(),
{
    if a.len() == 0 {
        Ext::zero_spec()
    } else {
        a[0].times(b[0]).plus(dot(a.skip(1), b.skip(1)))
    }
}

// Rearrangements of the ring laws.

/// `(a + b) + (c + d) = (a + c) + (b + d)`.
pub proof fn lemma_plus_swap(a: Ext, b: Ext, c: Ext, d: Ext)
    ensures
        a.plus(b).plus(c.plus(d)) == a.plus(c).plus(b.plus(d)),
{
    lemma_plus_assoc(a, b, c.plus(d));
    lemma_plus_assoc(b, c, d);
    lemma_plus_comm(b, c);
    lemma_plus_assoc(c, b, d);
    lemma_plus_assoc(a, c, b.plus(d));
}

/// `(b + c) * a = b * a + c * a`.
pub proof fn lemma_distrib_right(b: Ext, c: Ext, a: Ext)
    ensures
        b.plus(c).times(a) == b.times(a).plus(c.times(a)),
{
    lemma_times_comm(b.plus(c), a);
    lemma_times_comm(b, a);
    lemma_times_comm(c, a);
    lemma_distrib(a, b, c);
}

/// `x * (y * z) = y * (x * z)`.
pub proof fn lemma_times_swap(x: Ext, y: Ext, z: Ext)
    ensures
        x.times(y.times(z)) == y.times(x.times(z)),
{
    lemma_times_assoc(x, y, z);
    lemma_times_comm(x, y);
    lemma_times_assoc(y, x, z);
}

/// `(a - b) + b = a`, and `a + (b - a) = b`, for canonical `a` and `b`.
pub proof fn lemma_difference(a: Ext, b: Ext)
    requires
        a.canonical(),
        b.canonical(),
    ensures
        a.minus(b).plus(b) == a,
        a.plus(b).minus(b) == a,
        a.plus(b.minus(a)) == b,
{
    lemma_minus_plus(a, b);
    lemma_minus_plus(b, a);
    lemma_zero(a);
    lemma_zero(b);
    lemma_plus_comm(a, b.minus(a));
}

/// `x = (x + y) - y` as soon as `z = x + y`.
pub proof fn lemma_solve(x: Ext, y: Ext, z: Ext)
    requires
        x.canonical(),
        x.plus(y) == z,
    ensures
        z.minus(y) == x,
{
    lemma_minus_plus(x, y);
    lemma_zero(x);
}

/// `(a - b) * c = a * c - b * c`.
pub proof fn lemma_distrib_minus(a: Ext, b: Ext, c: Ext)
    ensures
        a.minus(b).times(c) == a.times(c).minus(b.times(c)),
{
    let d = a.minus(b);
    lemma_distrib_right(d, b, c);
    lemma_minus_plus(a, b);
    lemma_distrib_right(a, Ext::zero_spec(), c);
    lemma_times_zero(c);
    lemma_canonical(a, c);
    lemma_canonical(d, c);
    lemma_zero(a.times(c));
    lemma_solve(d.times(c), b.times(c), a.times(c));
}

/// `(a + b) - (c + d) = (a - c) + (b - d)`.
pub proof fn lemma_minus_swap(a: Ext, b: Ext, c: Ext, d: Ext)
    ensures
        a.plus(b).minus(c.plus(d)) == a.minus(c).plus(b.minus(d)),
{
    let zero = Ext::zero_spec();
    let x = a.minus(c).plus(b.minus(d));
    lemma_plus_swap(a.minus(c), b.minus(d), c, d);
    lemma_minus_plus(a, c);
    lemma_minus_plus(b, d);
    lemma_plus_swap(a, zero, b, zero);
    lemma_canonical(a, b);
    lemma_zero(zero);
    lemma_zero(a.plus(b));
    lemma_canonical(a.minus(c), b.minus(d));
    lemma_solve(x, c.plus(d), a.plus(b));
}

// Vectors.

pub proof fn lemma_vec_canonical(r: Ext, a: Seq<Ext>, b: Seq<Ext>)
    ensures
        all_canonical(vadd(a, b)),
        all_canonical(vsub(a, b)),
        all_canonical(vscale(r, a)),
{
    assert forall|i: int| 0 <= i < a.len() implies (#[trigger] vadd(a, b)[i]).canonical() by {
        lemma_canonical(a[i], b[i]);
    }
    assert forall|i: int| 0 <= i < a.len() implies (#[trigger] vsub(a, b)[i]).canonical() by {
        lemma_canonical(a[i], b[i]);
    }
    assert forall|i: int| 0 <= i < a.len() implies (#[trigger] vscale(r, a)[i]).canonical() by {
        lemma_canonical(r, a[i]);
    }
}

pub proof fn lemma_dot_canonical(a: Seq<Ext>, b: Seq<Ext>)
    ensures
        dot(a, b).canonical(),
{
    if a.len() > 0 {
        lemma_canonical(a[0].times(b[0]), dot(a.skip(1), b.skip(1)));
    }
}

/// The dot product does not depend on the order of its arguments.
pub proof fn lemma_dot_comm(a: Seq<Ext>, b: Seq<Ext>)
    requires
        a.len() == b.len(),
    ensures
        dot(a, b) == dot(b, a),
    decreases a.len(),
{
    if a.len() > 0 {
        lemma_times_comm(a[0], b[0]);
        lemma_dot_comm(a.skip(1), b.skip(1));
    }
}

/// The dot product is additive in its first argument.
pub proof fn lemma_dot_add(a: Seq<Ext>, b: Seq<Ext>, t: Seq<Ext>)
    requires
        a.len() == b.len(),
        a.len() == t.len(),
    ensures
        dot(vadd(a, b), t) == dot(a, t).plus(dot(b, t)),
    decreases a.len(),
{
    if a.len() == 0 {
        lemma_zero(Ext::zero_spec());
    } else {
        assert(vadd(a, b).skip(1) =~= vadd(a.skip(1), b.skip(1)));
        lemma_dot_add(a.skip(1), b.skip(1), t.skip(1));
        lemma_distrib_right(a[0], b[0], t[0]);
        lemma_plus_swap(
            a[0].times(t[0]),
            b[0].times(t[0]),
            dot(a.skip(1), t.skip(1)),
            dot(b.skip(1), t.skip(1)),
        );
    }
}

/// The dot product is homogeneous in its first argument.
pub proof fn lemma_dot_scale(r: Ext, a: Seq<Ext>, t: Seq<Ext>)
    requires
        a.len() == t.len(),
    ensures
        dot(vscale(r, a), t) == r.times(dot(a, t)),
    decreases a.len(),
{
    if a.len() == 0 {
        lemma_times_zero(r);
    } else {
        assert(vscale(r, a).skip(1) =~= vscale(r, a.skip(1)));
        lemma_dot_scale(r, a.skip(1), t.skip(1));
        lemma_times_assoc(r, a[0], t[0]);
        lemma_distrib(r, a[0].times(t[0]), dot(a.skip(1), t.skip(1)));
    }
}

/// The dot product is additive in its second argument.
pub proof fn lemma_dot_add_right(a: Seq<Ext>, t: Seq<Ext>, u: Seq<Ext>)
    requires
        a.len() == t.len(),
        a.len() == u.len(),
    ensures
        dot(a, vadd(t, u)) == dot(a, t).plus(dot(a, u)),
{
    lemma_dot_comm(a, vadd(t, u));
    lemma_dot_comm(a, t);
    lemma_dot_comm(a, u);
    lemma_dot_add(t, u, a);
}

/// The dot product is homogeneous in its second argument.
pub proof fn lemma_dot_scale_right(a: Seq<Ext>, r: Ext, t: Seq<Ext>)
    requires
        a.len() == t.len(),
    ensures
        dot(a, vscale(r, t)) == r.times(dot(a, t)),
{
    lemma_dot_comm(a, vscale(r, t));
    lemma_dot_comm(a, t);
    lemma_dot_scale(r, t, a);
}

/// A dot product with the zero vector vanishes.
pub proof fn lemma_dot_zeros(a: Seq<Ext>)
    ensures
        dot(a, zeros(a.len())) == Ext::zero_spec(),
    decreases a.len(),
{
    if a.len() > 0 {
        assert(zeros(a.len()).skip(1) =~= zeros(a.skip(1).len()));
        lemma_dot_zeros(a.skip(1));
        lemma_times_zero(a[0]);
        lemma_zero(Ext::zero_spec());
    }
}

/// The dot product is the sum of those over the even and over the odd positions.
pub proof fn lemma_dot_parity(a: Seq<Ext>, b: Seq<Ext>)
    requires
        a.len() == b.len(),
        a.len() % 2 == 0,
    ensures
        dot(a, b) == dot(even(a), even(b)).plus(dot(odd(a), odd(b))),
    decreases a.len(),
{
    if a.len() == 0 {
        lemma_zero(Ext::zero_spec());
    } else {
        let (a2, b2) = (a.skip(2), b.skip(2));
        assert(a.skip(1).skip(1) =~= a2 && b.skip(1).skip(1) =~= b2);
        lemma_dot_parity(a2, b2);
        assert(even(a).skip(1) =~= even(a2) && even(b).skip(1) =~= even(b2));
        assert(odd(a).skip(1) =~= odd(a2) && odd(b).skip(1) =~= odd(b2));
        let (x, y) = (a[0].times(b[0]), a[1].times(b[1]));
        let (e, o) = (dot(even(a2), even(b2)), dot(odd(a2), odd(b2)));
        assert(dot(a, b) == x.plus(y.plus(dot(a2, b2)))) by {
            reveal_with_fuel(dot, 2);
        }
        lemma_plus_assoc(x, y, e.plus(o));
        lemma_plus_swap(x, y, e, o);
    }
}

/// The sum of the vectors `vs`, each times the coefficient at its position, over `n` entries.
pub open spec fn weighted_sum(vs: Seq<Seq<Ext>>, r: Seq<Ext>, n: nat) -> Seq<Ext>
    decreases vs.len(),
{
    if vs.len() == 0 {
        zeros(n)
    } else {
        vadd(weighted_sum(vs.drop_last(), r, n), vscale(r[vs.len() - 1], vs.last()))
    }
}

/// The powers `1, x, x^2, ..` of `x`, `n` of them.
pub open spec fn powers(x: Ext, n: nat) -> Seq<Ext> {
    Seq::new(n, |i: int| x.power(i as nat))
}

/// The sum of the products of the entries.
pub fn dot_product(a: &Vec<Ext>, b: &Vec<Ext>) -> (r: Ext)
    requires
        a@.len() == b@.len(),
    ensures
        r == dot(a@, b@),
{
    let mut left: usize = a.len();
    let mut r: Ext = Ext::zero();
    while left > 0
        invariant
            left <= a@.len() == b@.len(),
            r == dot(a@.skip(left as int), b@.skip(left as int)),
        decreases left,
    {
        left = left - 1;
        r = a[left].mul(b[left]).add(r);
        assert(a@.skip(left as int).skip(1) =~= a@.skip(left + 1));
        assert(b@.skip(left as int).skip(1) =~= b@.skip(left + 1));
    }
    assert(a@.skip(0) =~= a@);
    assert(b@.skip(0) =~= b@);
    r
}

/// The sum of `a` and the multiple `r` of `b`.
pub fn add_scaled(a: &Vec<Ext>, r: Ext, b: &Vec<Ext>) -> (res: Vec<Ext>)
    requires
        a@.len() == b@.len(),
    ensures
        res@ == vadd(a@, vscale(r, b@)),
{
    let n: usize = a.len();
    let mut res: Vec<Ext> = Vec::new();
    for i in 0..n
        invariant
            n == a@.len(),
            n == b@.len(),
            res@.len() == i,
            forall|k: int| 0 <= k < i ==> res@[k] == a@[k].plus(r.times(b@[k])),
    {
        res.push(a[i].add(r.mul(b[i])));
    }
    assert(res@ =~= vadd(a@, vscale(r, b@)));
    res
}

/// The pointwise sum.
pub fn add_vectors(a: &Vec<Ext>, b: &Vec<Ext>) -> (res: Vec<Ext>)
    requires
        a@.len() == b@.len(),
    ensures
        res@ == vadd(a@, b@),
{
    let n: usize = a.len();
    let mut res: Vec<Ext> = Vec::new();
    for i in 0..n
        invariant
            n == a@.len(),
            n == b@.len(),
            res@.len() == i,
            forall|k: int| 0 <= k < i ==> res@[k] == a@[k].plus(b@[k]),
    {
        res.push(a[i].add(b[i]));
    }
    assert(res@ =~= vadd(a@, b@));
    res
}

/// A copy of a vector.
pub fn copy_vec(v: &Vec<Ext>) -> (r: Vec<Ext>)
    ensures
        r@ == v@,
{
    let n: usize = v.len();
    let mut r: Vec<Ext> = Vec::new();
    for i in 0..n
        invariant
            n == v@.len(),
            r@ == v@.take(i as int),
    {
        r.push(v[i]);
        assert(r@ =~= v@.take(i + 1));
    }
    assert(v@.take(n as int) =~= v@);
    r
}

/// The zero vector of length `n`.
pub fn zero_vector(n: usize) -> (res: Vec<Ext>)
    ensures
        res@ == zeros(n as nat),
{
    let mut res: Vec<Ext> = Vec::new();
    for i in 0..n
        invariant
            res@ == zeros(i as nat),
    {
        res.push(Ext::zero());
        assert(res@ =~= zeros((i + 1) as nat));
    }
    res
}

/// A dot product with one more entry.
pub proof fn lemma_dot_push(a: Seq<Ext>, b: Seq<Ext>, x: Ext, y: Ext)
    requires
        a.len() == b.len(),
    ensures
        dot(a.push(x), b.push(y)) == dot(a, b).plus(x.times(y)),
    decreases a.len(),
{
    let (a1, b1) = (a.push(x), b.push(y));
    if a.len() == 0 {
        assert(dot(a1.skip(1), b1.skip(1)) == Ext::zero_spec());
        lemma_plus_comm(x.times(y), Ext::zero_spec());
    } else {
        assert(a1.skip(1) =~= a.skip(1).push(x));
        assert(b1.skip(1) =~= b.skip(1).push(y));
        lemma_dot_push(a.skip(1), b.skip(1), x, y);
        lemma_plus_assoc(a[0].times(b[0]), dot(a.skip(1), b.skip(1)), x.times(y));
    }
}

pub proof fn lemma_weighted_sum_len(vs: Seq<Seq<Ext>>, r: Seq<Ext>, n: nat)
    ensures
        weighted_sum(vs, r, n).len() == n,
        all_canonical(weighted_sum(vs, r, n)),
    decreases vs.len(),
{
    if vs.len() > 0 {
        lemma_weighted_sum_len(vs.drop_last(), r, n);
        lemma_vec_canonical(
            Ext::zero_spec(),
            weighted_sum(vs.drop_last(), r, n),
            vscale(r[vs.len() - 1], vs.last()),
        );
    }
}

/// The first vectors alone decide the partial sums.
pub proof fn lemma_weighted_sum_prefix(vs: Seq<Seq<Ext>>, r: Seq<Ext>, s: Seq<Ext>, n: nat)
    requires
        vs.len() <= r.len(),
        vs.len() <= s.len(),
        forall|i: int| 0 <= i < vs.len() ==> r[i] == s[i],
    ensures
        weighted_sum(vs, r, n) == weighted_sum(vs, s, n),
    decreases vs.len(),
{
    if vs.len() > 0 {
        lemma_weighted_sum_prefix(vs.drop_last(), r, s, n);
    }
}

/// If `values` are the dot products of `e` with the vectors, then their combination is the dot
/// product of `e` with the combination of the vectors.
pub proof fn law_weighted_sum(e: Seq<Ext>, vs: Seq<Seq<Ext>>, values: Seq<Ext>, r: Seq<Ext>)
    requires
        vs.len() == values.len() == r.len(),
        forall|i: int| 0 <= i < vs.len() ==> (#[trigger] vs[i]).len() == e.len(),
        forall|i: int| 0 <= i < vs.len() ==> dot(e, #[trigger] vs[i]) == values[i],
    ensures
        dot(e, weighted_sum(vs, r, e.len())) == dot(r, values),
    decreases vs.len(),
{
    if vs.len() == 0 {
        lemma_dot_zeros(e);
    } else {
        let k = vs.len() - 1;
        let (v0, x0, r0) = (vs.drop_last(), values.drop_last(), r.drop_last());
        law_weighted_sum(e, v0, x0, r0);
        lemma_weighted_sum_prefix(v0, r0, r, e.len());
        lemma_weighted_sum_len(v0, r, e.len());
        lemma_dot_add_right(e, weighted_sum(v0, r, e.len()), vscale(r[k], vs[k]));
        lemma_dot_scale_right(e, r[k], vs[k]);
        lemma_dot_push(r0, x0, r[k], values[k]);
        assert(r0.push(r[k]) =~= r);
        assert(x0.push(values[k]) =~= values);
    }
}

// What the vectors are.

/// The powers start with one, and each is the base times the one before.
pub proof fn law_powers(x: Ext, n: nat)
    ensures
        powers(x, n).len() == n,
        n > 0 ==> powers(x, n)[0] == (Ext { c0: 1, c1: 0 }),
        forall|i: int| 0 < i < n ==> #[trigger] powers(x, n)[i] == x.times(powers(x, n)[i - 1]),
{
}

/// The dot product of empty vectors is zero, and one more pair of entries adds their product.
pub proof fn law_dot(a: Seq<Ext>, b: Seq<Ext>)
    requires
        a.len() == b.len(),
    ensures
        a.len() == 0 ==> dot(a, b) == (Ext { c0: 0, c1: 0 }),
        a.len() > 0 ==> dot(a, b) == dot(a.drop_last(), b.drop_last()).plus(
            a.last().times(b.last()),
        ),
{
    if a.len() > 0 {
        lemma_dot_push(a.drop_last(), b.drop_last(), a.last(), b.last());
        assert(a.drop_last().push(a.last()) =~= a);
        assert(b.drop_last().push(b.last()) =~= b);
    }
}

/// An entry of a combination of vectors is the combination of their entries there.
pub proof fn law_weighted_sum_entry(vs: Seq<Seq<Ext>>, r: Seq<Ext>, n: nat, j: int)
    requires
        vs.len() == r.len(),
        forall|i: int| 0 <= i < vs.len() ==> (#[trigger] vs[i]).len() == n,
        0 <= j < n,
    ensures
        weighted_sum(vs, r, n).len() == n,
        weighted_sum(vs, r, n)[j] == dot(r, Seq::new(vs.len(), |i: int| vs[i][j])),
    decreases vs.len(),
{
    lemma_weighted_sum_len(vs, r, n);
    let column = Seq::new(vs.len(), |i: int| vs[i][j]);
    if vs.len() > 0 {
        let k = vs.len() - 1;
        let (v0, r0) = (vs.drop_last(), r.drop_last());
        let c0 = Seq::new(v0.len(), |i: int| v0[i][j]);
        law_weighted_sum_entry(v0, r0, n, j);
        lemma_weighted_sum_prefix(v0, r0, r, n);
        lemma_weighted_sum_len(v0, r, n);
        lemma_dot_push(r0, c0, r[k], vs[k][j]);
        assert(r0.push(r[k]) =~= r);
        assert(c0.push(vs[k][j]) =~= column);
    } else {
        assert(dot(r, column) == Ext::zero_spec());
    }
}

} // verus!
