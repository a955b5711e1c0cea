//! Evaluation domains: the subgroups of two-power order.
use crate::field::{lemma_one, lemma_power_add, lemma_power_canonical, lemma_power_mul, ORDER, Ext};
use crate::types::ExtField;
use p3_field::{BasedVectorSpace, PrimeField64, TwoAdicField};
use p3_goldilocks::Goldilocks;
use vstd::arithmetic::mul::lemma_mul_is_commutative;
use vstd::arithmetic::power2::{
    lemma2_to64, lemma_pow2_adds, lemma_pow2_strictly_increases, lemma_pow2_unfold, pow2,
};
use vstd::prelude::*;

verus! {

/// The largest two-power order of an element, as an exponent.
pub const TWO_ADICITY: usize = 33;

/// The second coordinate of the element of order `2^33`; its first coordinate is zero.
pub const TWO_ADIC_ROOT: u64 = 15659105665374529263;

/// The element of order `2^bits` that generates the domain of that size.
pub open spec fn root_of_unity(bits: nat) -> Ext {
    Ext { c0: 0, c1: TWO_ADIC_ROOT }.power(pow2((TWO_ADICITY - bits) as nat))
}

/// The generator of the subgroup of order `2^bits`.
///
/// Trusted: calls `TwoAdicField::two_adic_generator` on the quadratic extension of the field. Its
/// tables hold, for each order, the square of the generator of the next order, and for the
/// largest order the element with the coordinates `0` and `TWO_ADIC_ROOT`; it panics beyond that.
#[verifier::external_body]
fn two_adic_generator(bits: usize) -> (r: Ext)
    requires
        bits <= TWO_ADICITY,
    ensures
        r == root_of_unity(bits as nat),
{
    let g = ExtField::two_adic_generator(bits);
    let c: &[Goldilocks] = g.as_basis_coefficients_slice();
    Ext { c0: c[0].as_canonical_u64(), c1: c[1].as_canonical_u64() }
}

/// Squaring the generator `k` times gives the generator of the domain that is `2^k` times smaller.
pub proof fn law_root_powers(bits: nat, k: nat)
    requires
        k <= bits <= TWO_ADICITY,
    ensures
        root_of_unity(bits).power(pow2(k)) == root_of_unity((bits - k) as nat),
{
    let g = Ext { c0: 0, c1: TWO_ADIC_ROOT };
    lemma_power_mul(g, pow2((TWO_ADICITY - bits) as nat), pow2(k));
    lemma_pow2_adds((TWO_ADICITY - bits) as nat, k);
    assert((TWO_ADICITY - bits) as nat + k == (TWO_ADICITY - (bits - k)) as nat);
}

/// The square of a generator is the generator of the next smaller order.
proof fn lemma_next_root(bits: nat, c0: u64, c1: u64, square: u64)
    requires
        0 < bits <= TWO_ADICITY,
        root_of_unity(bits) == (Ext { c0, c1 }),
        c0 * c1 == 0,
        (c0 * c0 + 7 * (c1 * c1)) % (ORDER as int) == square,
    ensures
        root_of_unity((bits - 1) as nat) == (Ext { c0: square, c1: 0 }),
{
    let g = root_of_unity(bits);
    law_root_powers(bits, 1);
    lemma2_to64();
    reveal_with_fuel(Ext::power, 3);
    lemma_power_canonical(Ext { c0: 0, c1: TWO_ADIC_ROOT }, pow2((TWO_ADICITY - bits) as nat));
    lemma_one(g);
    reveal(Ext::times);
    lemma_mul_is_commutative(c1 as int, c0 as int);
}

/// The generators of the two smallest domains: the generator of order one is one, and that of
/// order two is minus one.
pub proof fn law_small_roots()
    ensures
        root_of_unity(0) == Ext::one_spec(),
        root_of_unity(1) == (Ext { c0: (ORDER - 1) as u64, c1: 0 }),
{
    let g = Ext { c0: 0, c1: TWO_ADIC_ROOT };
    lemma2_to64();
    reveal_with_fuel(Ext::power, 2);
    lemma_one(g);
    assert(root_of_unity(33) == g);
    lemma_next_root(33, 0, 15659105665374529263, 1753635133440165772);
    lemma_next_root(32, 1753635133440165772, 0, 4614640910117430873);
    lemma_next_root(31, 4614640910117430873, 0, 9123114210336311365);
    lemma_next_root(30, 9123114210336311365, 0, 16116352524544190054);
    lemma_next_root(29, 16116352524544190054, 0, 6414415596519834757);
    lemma_next_root(28, 6414415596519834757, 0, 1213594585890690845);
    lemma_next_root(27, 1213594585890690845, 0, 17096174751763063430);
    lemma_next_root(26, 17096174751763063430, 0, 5456943929260765144);
    lemma_next_root(25, 5456943929260765144, 0, 9713644485405565297);
    lemma_next_root(24, 9713644485405565297, 0, 16905767614792059275);
    lemma_next_root(23, 16905767614792059275, 0, 5416168637041100469);
    lemma_next_root(22, 5416168637041100469, 0, 17654865857378133588);
    lemma_next_root(21, 17654865857378133588, 0, 3511170319078647661);
    lemma_next_root(20, 3511170319078647661, 0, 18146160046829613826);
    lemma_next_root(19, 18146160046829613826, 0, 9306717745644682924);
    lemma_next_root(18, 9306717745644682924, 0, 12380578893860276750);
    lemma_next_root(17, 12380578893860276750, 0, 6115771955107415310);
    lemma_next_root(16, 6115771955107415310, 0, 17776499369601055404);
    lemma_next_root(15, 17776499369601055404, 0, 16207902636198568418);
    lemma_next_root(14, 16207902636198568418, 0, 1532612707718625687);
    lemma_next_root(13, 1532612707718625687, 0, 17492915097719143606);
    lemma_next_root(12, 17492915097719143606, 0, 455906449640507599);
    lemma_next_root(11, 455906449640507599, 0, 11353340290879379826);
    lemma_next_root(10, 11353340290879379826, 0, 1803076106186727246);
    lemma_next_root(9, 1803076106186727246, 0, 13797081185216407910);
    lemma_next_root(8, 13797081185216407910, 0, 17870292113338400769);
    lemma_next_root(7, 17870292113338400769, 0, 549755813888);
    lemma_next_root(6, 549755813888, 0, 70368744161280);
    lemma_next_root(5, 70368744161280, 0, 17293822564807737345);
    lemma_next_root(4, 17293822564807737345, 0, 18446744069397807105);
    lemma_next_root(3, 18446744069397807105, 0, 281474976710656);
    lemma_next_root(2, 281474976710656, 0, 18446744069414584320);
    lemma_next_root(1, 18446744069414584320, 0, 1);
}

/// Every element of a domain, raised to the size of the domain, is one.
pub proof fn law_root_order(bits: nat, index: nat)
    requires
        bits <= TWO_ADICITY,
    ensures
        root_of_unity(bits).power(pow2(bits)) == Ext::one_spec(),
        root_of_unity(bits).power(index).power(pow2(bits)) == Ext::one_spec(),
{
    let g = root_of_unity(bits);
    law_root_powers(bits, bits);
    law_small_roots();
    lemma_power_mul(g, index, pow2(bits));
    lemma_power_mul(g, pow2(bits), index);
    lemma_mul_is_commutative(index as int, pow2(bits) as int);
    lemma_power_one(index);
}

proof fn lemma_power_one(n: nat)
    ensures
        Ext::one_spec().power(n) == Ext::one_spec(),
    decreases n,
{
    if n > 0 {
        lemma_power_one((n - 1) as nat);
        lemma_one(Ext::one_spec());
    }
}

/// No smaller power of the generator than the size of the domain is one.
proof fn lemma_root_primitive(bits: nat, d: nat)
    requires
        bits <= TWO_ADICITY,
        0 < d < pow2(bits),
    ensures
        root_of_unity(bits).power(d) != Ext::one_spec(),
    decreases bits,
{
    let g = root_of_unity(bits);
    let one = Ext::one_spec();
    lemma2_to64();
    let half = (bits - 1) as nat;
    lemma_pow2_unfold(bits);
    if d % 2 == 0 {
        let e = d / 2;
        law_root_powers(bits, 1);
        lemma_power_mul(g, 2, e);
        assert(2 * e == d);
        lemma_root_primitive(half, e);
    } else {
        // raised to half the size, the generator is minus one, and so are its odd powers
        let m = pow2(half);
        let minus = root_of_unity(1);
        let e = d / 2;
        law_small_roots();
        law_root_powers(bits, half);
        lemma_power_mul(g, m, d);
        lemma_power_mul(g, d, m);
        lemma_mul_is_commutative(m as int, d as int);
        lemma_power_one(m);
        law_root_powers(1, 1);
        lemma_power_mul(minus, 2, e);
        lemma_power_one(e);
        assert(minus.power(2 * e) == one);
        assert(d == 2 * e + 1);
        lemma_one(minus);
        assert(minus.power(d) == minus);
        assert(minus != one);
    }
}

/// Different indices below the size of the domain give different elements.
pub proof fn law_root_distinct(bits: nat, i: nat, j: nat)
    requires
        bits <= TWO_ADICITY,
        i < j < pow2(bits),
    ensures
        root_of_unity(bits).power(i) != root_of_unity(bits).power(j),
{
    let g = root_of_unity(bits);
    let n = pow2(bits);
    let rest = (n - i) as nat;
    let d = (j - i) as nat;
    law_root_order(bits, 0);
    lemma_root_primitive(bits, d);
    lemma_power_add(g, i, rest);
    lemma_power_add(g, j, rest);
    lemma_power_add(g, n, d);
    lemma_power_canonical(g, d);
    lemma_one(g.power(d));
    assert(j + rest == n + d && i + rest == n);
}

/// The domain of the powers of the generator of order `2^log_size`.
#[derive(Clone, Copy, Debug, PartialEq, Eq, Structural)]
pub struct Domain {
    pub log_size: usize,
}

impl Domain {
    /// There is a generator of this order, and the size is a machine number.
    pub open spec fn wf(self) -> bool {
        self.log_size <= TWO_ADICITY && pow2(self.log_size as nat) <= usize::MAX
    }

    /// Whether there is a generator of this order, and the size is a machine number.
    pub fn is_supported(&self) -> (b: bool)
        ensures
            b == self.wf(),
    {
        if self.log_size > TWO_ADICITY {
            return false;
        }
        let mut size: usize = 1;
        proof {
            lemma2_to64();
        }
        for i in 0..self.log_size
            invariant
                size == pow2(i as nat),
        {
            proof {
                lemma_pow2_unfold((i + 1) as nat);
                lemma_pow2_monotone((i + 1) as nat, self.log_size as nat);
            }
            if size > usize::MAX / 2 {
                return false;
            }
            size = size * 2;
        }
        true
    }

    /// The number of elements.
    pub fn size(&self) -> (n: usize)
        requires
            self.wf(),
        ensures
            n == pow2(self.log_size as nat),
    {
        two_to_the(self.log_size)
    }

    /// The domain of the squares, half as large.
    pub fn halved(&self) -> (r: Domain)
        requires
            self.wf(),
            self.log_size > 0,
        ensures
            r.log_size == self.log_size - 1,
            r.wf(),
    {
        proof {
            lemma_pow2_unfold(self.log_size as nat);
        }
        Domain { log_size: self.log_size - 1 }
    }

    /// The element with the given index: that power of the generator.
    pub fn element(&self, index: usize) -> (r: Ext)
        requires
            self.wf(),
        ensures
            r == root_of_unity(self.log_size as nat).power(index as nat),
    {
        two_adic_generator(self.log_size).exp_u64(index as u64)
    }
}

/// The power of two with the given exponent.
pub fn two_to_the(n: usize) -> (r: usize)
    requires
        pow2(n as nat) <= usize::MAX,
    ensures
        r == pow2(n as nat),
{
    let mut r: usize = 1;
    proof {
        lemma2_to64();
    }
    for i in 0..n
        invariant
            r == pow2(i as nat),
            pow2(n as nat) <= usize::MAX,
    {
        proof {
            lemma_pow2_unfold((i + 1) as nat);
            lemma_pow2_monotone((i + 1) as nat, n as nat);
        }
        r = r * 2;
    }
    r
}

pub proof fn lemma_pow2_monotone(m: nat, n: nat)
    requires
        m <= n,
    ensures
        pow2(m) <= pow2(n),
{
    if m < n {
        lemma_pow2_strictly_increases(m, n);
    }
}

pub proof fn lemma_pow2_injective(m: nat, n: nat)
    requires
        pow2(m) == pow2(n),
    ensures
        m == n,
{
    if m < n {
        lemma_pow2_strictly_increases(m, n);
    } else if n < m {
        lemma_pow2_strictly_increases(n, m);
    }
}

/// The domains that there are: those of at most `2^33` elements, as far as the number of elements
/// is a machine number.
pub proof fn law_domain(domain: Domain)
    ensures
        domain.wf() <==> domain.log_size <= 33 && pow2(domain.log_size as nat) <= usize::MAX,
        domain.log_size > 0 && domain.wf() ==> (Domain { log_size: (domain.log_size - 1) as usize
        }).wf(),
{
    if domain.log_size > 0 {
        lemma_pow2_unfold(domain.log_size as nat);
    }
}

} // verus!
