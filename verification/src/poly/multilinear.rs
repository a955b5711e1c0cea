//! Points at which multilinear polynomials are evaluated.
use crate::field::Ext;
use vstd::prelude::*;

verus! {

/// A point, with the value of the first variable first.
#[derive(Debug, PartialEq, Eq)]
pub struct MultilinearPoint(pub Vec<Ext>);

/// The point `(z^(2^(n-1)), .., z^4, z^2, z)`: evaluating a multilinear polynomial there is
/// evaluating at `z` the univariate polynomial with the same coefficients.
pub open spec fn expand(z: Ext, n: nat) -> Seq<Ext>
    decreases n,
{
    if n == 0 {
        Seq::empty()
    } else {
        expand(z.times(z), (n - 1) as nat).push(z)
    }
}

pub proof fn lemma_expand_len(z: Ext, n: nat)
    ensures
        expand(z, n).len() == n,
    decreases n,
{
    if n > 0 {
        lemma_expand_len(z.times(z), (n - 1) as nat);
    }
}

impl View for MultilinearPoint {
    type V = Seq<Ext>;

    open spec fn view(&self) -> Seq<Ext> {
        self.0@
    }
}

impl MultilinearPoint {
    pub fn num_variables(&self) -> (n: usize)
        ensures
            n == self@.len(),
    {
        self.0.len()
    }

    /// The point whose last coordinate is `point` and in which each coordinate is the square of
    /// the one behind it.
    pub fn expand_from_univariate(point: Ext, num_variables: usize) -> (r: MultilinearPoint)
        ensures
            r@ == expand(point, num_variables as nat),
    {
        let mut powers: Vec<Ext> = Vec::new();
        let mut cur: Ext = point;
        let ghost whole = expand(point, num_variables as nat);
        assert(whole =~= expand(cur, num_variables as nat) + powers@.reverse());
        for i in 0..num_variables
            invariant
                powers@.len() == i,
                whole == expand(cur, (num_variables - i) as nat) + powers@.reverse(),
        {
            let ghost before = powers@;
            powers.push(cur);
            proof {
                let rest = expand(cur.times(cur), (num_variables - i - 1) as nat);
                assert(powers@.reverse() =~= seq![cur] + before.reverse());
                assert(rest.push(cur) + before.reverse() =~= rest + powers@.reverse());
            }
            cur = cur.mul(cur);
        }
        assert(whole =~= powers@.reverse());
        MultilinearPoint(reversed(&powers))
    }
}

/// The entries in the opposite order.
pub fn reversed(v: &Vec<Ext>) -> (r: Vec<Ext>)
    ensures
        r@ == v@.reverse(),
{
    let n: usize = v.len();
    let mut r: Vec<Ext> = Vec::new();
    for i in 0..n
        invariant
            n == v@.len(),
            r@.len() == i,
            forall|k: int| 0 <= k < i ==> r@[k] == v@[n - 1 - k],
    {
        r.push(v[n - 1 - i]);
    }
    assert(r@ =~= v@.reverse());
    r
}

/// The last coordinate of an expanded point is the given one, and each other coordinate is the
/// square of the one behind it. A point stands for the coordinates that it holds.
pub proof fn law_expand_entries(z: Ext, n: nat, point: MultilinearPoint)
    ensures
        expand(z, n).len() == n,
        n > 0 ==> expand(z, n)[n - 1] == z,
        forall|i: int|
            0 <= i < n - 1 ==> #[trigger] expand(z, n)[i] == expand(z, n)[i + 1].times(
                expand(z, n)[i + 1],
            ),
        point@ == point.0@,
    decreases n,
{
    lemma_expand_len(z, n);
    if n > 0 {
        let m = (n - 1) as nat;
        let rest = expand(z.times(z), m);
        law_expand_entries(z.times(z), m, point);
        lemma_expand_len(z.times(z), m);
        assert forall|i: int| 0 <= i < n - 1 implies #[trigger] expand(z, n)[i] == expand(z, n)[i
            + 1].times(expand(z, n)[i + 1]) by {
            if i < m - 1 {
                assert(expand(z, n)[i] == rest[i]);
                assert(expand(z, n)[i + 1] == rest[i + 1]);
            }
        }
    }
}

} // verus!
