//! The prime field of order `2^64 - 2^32 + 1` and its quadratic extension by a root of `X^2 - 7`.
use vstd::arithmetic::div_mod::{
    lemma_add_mod_noop, lemma_add_mod_noop_right, lemma_mod_twice, lemma_mul_mod_noop_left,
    lemma_mul_mod_noop_right, lemma_sub_mod_noop,
};
use vstd::arithmetic::mul::{
    lemma_mul_is_associative, lemma_mul_is_commutative, lemma_mul_is_distributive_add,
    lemma_mul_is_distributive_add_other_way,
};
use vstd::prelude::*;

verus! {

/// The order of the base field.
pub const ORDER: u64 = 0xFFFF_FFFF_0000_0001;

/// The square that the extension adjoins a root of.
pub const NON_RESIDUE: u64 = 7;

/// An element of the base field, by a representative below `2^64`.
#[derive(Clone, Copy, Debug, PartialEq, Eq, Structural)]
pub struct Felt {
    pub value: u64,
}

/// An element `c0 + c1 * X` of the extension field.
#[derive(Clone, Copy, Debug, PartialEq, Eq, Structural)]
pub struct Ext {
    pub c0: u64,
    pub c1: u64,
}

/// The class of `x`, by its representative in `0..ORDER`.
pub open spec fn residue(x: int) -> u64 {
    (x % (ORDER as int)) as u64
}

impl Ext {
    /// Both coordinates are the representatives below the order.
    pub open spec fn canonical(self) -> bool {
        self.c0 < ORDER && self.c1 < ORDER
    }

    pub open spec fn zero_spec() -> Ext {
        Ext { c0: 0, c1: 0 }
    }

    pub open spec fn one_spec() -> Ext {
        Ext { c0: 1, c1: 0 }
    }

    /// The base field inside the extension.
    pub open spec fn lift(x: Felt) -> Ext {
        Ext { c0: x.value, c1: 0 }
    }

    /// The sum.
    #[verifier::opaque]
    pub open spec fn plus(self, other: Ext) -> Ext {
        Ext { c0: residue(self.c0 + other.c0), c1: residue(self.c1 + other.c1) }
    }

    /// The difference.
    #[verifier::opaque]
    pub open spec fn minus(self, other: Ext) -> Ext {
        Ext { c0: residue(self.c0 - other.c0), c1: residue(self.c1 - other.c1) }
    }

    /// The product, reduced by `X^2 = 7`.
    #[verifier::opaque]
    pub open spec fn times(self, other: Ext) -> Ext {
        Ext {
            c0: residue(self.c0 * other.c0 + NON_RESIDUE * (self.c1 * other.c1)),
            c1: residue(self.c0 * other.c1 + self.c1 * other.c0),
        }
    }

    /// The power with exponent `n`.
    pub open spec fn power(self, n: nat) -> Ext
        decreases n,
    {
        if n == 0 {
            Ext::one_spec()
        } else {
            self.times(self.power((n - 1) as nat))
        }
    }

    pub fn zero() -> (r: Ext)
        ensures
            r == Ext::zero_spec(),
    {
        Ext { c0: 0, c1: 0 }
    }

    pub fn one() -> (r: Ext)
        ensures
            r == Ext::one_spec(),
    {
        Ext { c0: 1, c1: 0 }
    }

    pub fn from_base(x: Felt) -> (r: Ext)
        ensures
            r == Ext::lift(x),
    {
        Ext { c0: x.value, c1: 0 }
    }

    /// Adds two elements.
    pub fn add(self, other: Ext) -> (r: Ext)
        ensures
            r == self.plus(other),
            r.canonical(),
    {
        proof {
            reveal(Ext::plus);
        }
        Ext {
            c0: reduce(self.c0 as u128 + other.c0 as u128),
            c1: reduce(self.c1 as u128 + other.c1 as u128),
        }
    }

    /// Subtracts the second element from the first.
    pub fn sub(self, other: Ext) -> (r: Ext)
        ensures
            r == self.minus(other),
            r.canonical(),
    {
        proof {
            reveal(Ext::minus);
            let p = ORDER as int;
            assert((self.c0 + 2 * p - other.c0) % p == (self.c0 - other.c0) % p);
            assert((self.c1 + 2 * p - other.c1) % p == (self.c1 - other.c1) % p);
        }
        let twice: u128 = 2u128 * (ORDER as u128);
        Ext {
            c0: reduce(self.c0 as u128 + twice - other.c0 as u128),
            c1: reduce(self.c1 as u128 + twice - other.c1 as u128),
        }
    }

    /// Multiplies two elements.
    pub fn mul(self, other: Ext) -> (r: Ext)
        ensures
            r == self.times(other),
            r.canonical(),
    {
        proof {
            reveal(Ext::times);
        }
        let a00: u64 = mul_mod(self.c0, other.c0);
        let a11: u64 = mul_mod(self.c1, other.c1);
        let a01: u64 = mul_mod(self.c0, other.c1);
        let a10: u64 = mul_mod(self.c1, other.c0);
        proof {
            lemma_mod_combine(self.c0 * other.c0, 1, self.c1 * other.c1, NON_RESIDUE as int);
            lemma_mod_combine(self.c0 * other.c1, 1, self.c1 * other.c0, 1);
        }
        Ext {
            c0: reduce(a00 as u128 + (NON_RESIDUE as u128) * (a11 as u128)),
            c1: reduce(a01 as u128 + a10 as u128),
        }
    }

    /// Raises the element to a power, by square and multiply.
    pub fn exp_u64(self, exponent: u64) -> (r: Ext)
        ensures
            r == self.power(exponent as nat),
            r.canonical(),
    {
        let mut base: Ext = self;
        let mut left: u64 = exponent;
        let mut acc: Ext = Ext::one();
        proof {
            lemma_power_canonical(self, exponent as nat);
            lemma_one(self.power(exponent as nat));
        }
        while left > 0
            invariant
                acc.canonical(),
                acc.times(base.power(left as nat)) == self.power(exponent as nat),
            decreases left,
        {
            let ghost before = left as nat;
            let half: u64 = left / 2;
            proof {
                let h = half as nat;
                lemma_power_square(base, h);
                if left % 2 == 1 {
                    assert(base.power(before) == base.times(base.power((before - 1) as nat)));
                    assert((before - 1) as nat == 2 * h);
                    lemma_times_assoc(acc, base, base.power(2 * h));
                } else {
                    assert(before == 2 * h);
                }
            }
            if left % 2 == 1 {
                acc = acc.mul(base);
            }
            base = base.mul(base);
            left = half;
        }
        proof {
            lemma_one(acc);
            lemma_times_comm(acc, Ext::one_spec());
        }
        acc
    }
}

fn reduce(x: u128) -> (r: u64)
    ensures
        r == residue(x as int),
        r < ORDER,
{
    (x % (ORDER as u128)) as u64
}

fn mul_mod(a: u64, b: u64) -> (r: u64)
    ensures
        r == residue(a * b),
        r < ORDER,
{
    assert(a * b <= u64::MAX * u64::MAX) by (nonlinear_arith)
        requires
            a <= u64::MAX,
            b <= u64::MAX,
    ;
    assert((a as u128) * (b as u128) == a * b);
    reduce((a as u128) * (b as u128))
}

// Congruence helpers.

proof fn lemma_mod_combine(x: int, k: int, y: int, m: int)
    ensures
        ((x % (ORDER as int)) * k + m * (y % (ORDER as int))) % (ORDER as int)
            == (x * k + m * y) % (ORDER as int),
{
    let p = ORDER as int;
    lemma_mul_mod_noop_left(x, k, p);
    lemma_mul_mod_noop_right(m, y, p);
    lemma_add_mod_noop(x * k, m * y, p);
    lemma_add_mod_noop((x % p) * k, m * (y % p), p);
}

// Ring laws.

/// Sums, differences and products are canonical.
pub proof fn lemma_canonical(a: Ext, b: Ext)
    ensures
        a.plus(b).canonical(),
        a.minus(b).canonical(),
        a.times(b).canonical(),
{
    reveal(Ext::plus);
    reveal(Ext::minus);
    reveal(Ext::times);
}

pub proof fn lemma_plus_comm(a: Ext, b: Ext)
    ensures
        a.plus(b) == b.plus(a),
{
    reveal(Ext::plus);
}

pub proof fn lemma_plus_assoc(a: Ext, b: Ext, c: Ext)
    ensures
        a.plus(b).plus(c) == a.plus(b.plus(c)),
{
    reveal(Ext::plus);
    let p = ORDER as int;
    lemma_add_mod_noop_right(c.c0 as int, a.c0 + b.c0, p);
    lemma_add_mod_noop_right(c.c1 as int, a.c1 + b.c1, p);
    lemma_add_mod_noop_right(a.c0 as int, b.c0 + c.c0, p);
    lemma_add_mod_noop_right(a.c1 as int, b.c1 + c.c1, p);
}

pub proof fn lemma_times_comm(a: Ext, b: Ext)
    ensures
        a.times(b) == b.times(a),
{
    reveal(Ext::times);
    assert(a.c0 * b.c0 == b.c0 * a.c0 && a.c1 * b.c1 == b.c1 * a.c1 && a.c0 * b.c1 == b.c1 * a.c0
        && a.c1 * b.c0 == b.c0 * a.c1) by (nonlinear_arith);
}

pub proof fn lemma_times_assoc(a: Ext, b: Ext, c: Ext)
    ensures
        a.times(b).times(c) == a.times(b.times(c)),
{
    reveal(Ext::times);
    let w = NON_RESIDUE as int;
    let (a0, a1, b0, b1, c0, c1) = (
        a.c0 as int,
        a.c1 as int,
        b.c0 as int,
        b.c1 as int,
        c.c0 as int,
        c.c1 as int,
    );
    let l0 = a0 * b0 + w * (a1 * b1);
    let l1 = a0 * b1 + a1 * b0;
    let r0 = b0 * c0 + w * (b1 * c1);
    let r1 = b0 * c1 + b1 * c0;
    lemma_residue_bilinear(l0, c0, w, l1, c1);
    lemma_residue_bilinear(l0, c1, 1, l1, c0);
    lemma_residue_bilinear(r0, a0, w, r1, a1);
    lemma_residue_bilinear(r1, a0, 1, r0, a1);
    let p = ORDER as int;
    lemma_mul_is_commutative(r0 % p, a0);
    lemma_mul_is_commutative(r1 % p, a1);
    lemma_mul_is_commutative(r1 % p, a0);
    lemma_mul_is_commutative(r0 % p, a1);
    lemma_regroup(a0, b0, c0, w, a1, b1, c1);
    lemma_regroup_cross(a0, b0, c0, w, a1, b1, c1);
}

/// `(x + w * y) * k = x * k + w * (y * k)`.
proof fn lemma_multiply_out(x: int, w: int, y: int, k: int)
    ensures
        (x + w * y) * k == x * k + w * (y * k),
{
    lemma_mul_is_distributive_add_other_way(k, x, w * y);
    lemma_mul_is_associative(w, y, k);
}

/// `(x * y) * z = (y * z) * x`.
proof fn lemma_rotate(x: int, y: int, z: int)
    ensures
        (x * y) * z == (y * z) * x,
{
    lemma_mul_is_associative(x, y, z);
    lemma_mul_is_commutative(x, y * z);
}

/// One coordinate of `(a * b) * c = a * (b * c)` over the integers.
proof fn lemma_regroup(a0: int, b0: int, c0: int, w: int, a1: int, b1: int, c1: int)
    ensures
        (a0 * b0 + w * (a1 * b1)) * c0 + w * ((a0 * b1 + a1 * b0) * c1) == (b0 * c0 + w * (b1 * c1))
            * a0 + w * ((b0 * c1 + b1 * c0) * a1),
{
    lemma_multiply_out(a0 * b0, w, a1 * b1, c0);
    lemma_mul_is_distributive_add_other_way(c1, a0 * b1, a1 * b0);
    lemma_mul_is_distributive_add(w, (a0 * b1) * c1, (a1 * b0) * c1);
    lemma_multiply_out(b0 * c0, w, b1 * c1, a0);
    lemma_mul_is_distributive_add_other_way(a1, b0 * c1, b1 * c0);
    lemma_mul_is_distributive_add(w, (b0 * c1) * a1, (b1 * c0) * a1);
    lemma_rotate(a0, b0, c0);
    lemma_rotate(a1, b1, c0);
    lemma_rotate(a0, b1, c1);
    lemma_rotate(a1, b0, c1);
}

/// The other coordinate of `(a * b) * c = a * (b * c)` over the integers.
proof fn lemma_regroup_cross(a0: int, b0: int, c0: int, w: int, a1: int, b1: int, c1: int)
    ensures
        (a0 * b0 + w * (a1 * b1)) * c1 + 1 * ((a0 * b1 + a1 * b0) * c0) == (b0 * c1 + b1 * c0) * a0
            + 1 * ((b0 * c0 + w * (b1 * c1)) * a1),
{
    lemma_multiply_out(a0 * b0, w, a1 * b1, c1);
    lemma_mul_is_distributive_add_other_way(c0, a0 * b1, a1 * b0);
    lemma_mul_is_distributive_add_other_way(a0, b0 * c1, b1 * c0);
    lemma_multiply_out(b0 * c0, w, b1 * c1, a1);
    lemma_rotate(a0, b0, c1);
    lemma_rotate(a1, b1, c1);
    lemma_rotate(a0, b1, c0);
    lemma_rotate(a1, b0, c0);
}

/// Reducing the first factors does not change `x * k + w * (y * m)` modulo the order.
proof fn lemma_residue_bilinear(x: int, k: int, w: int, y: int, m: int)
    ensures
        ((x % (ORDER as int)) * k + w * ((y % (ORDER as int)) * m)) % (ORDER as int) == (x * k + w
            * (y * m)) % (ORDER as int),
{
    let p = ORDER as int;
    lemma_mod_combine(x, k, y, w * m);
    lemma_mul_is_commutative(m, y % p);
    lemma_mul_is_associative(w, m, y % p);
    lemma_mul_is_commutative(m, y);
    lemma_mul_is_associative(w, m, y);
}

/// `(y + z) * x = x * y + x * z`.
proof fn lemma_split(x: int, y: int, z: int)
    ensures
        (y + z) * x == x * y + x * z,
{
    lemma_mul_is_commutative(y + z, x);
    lemma_mul_is_distributive_add(x, y, z);
}

/// Multiplication distributes over addition.
pub proof fn lemma_distrib(a: Ext, b: Ext, c: Ext)
    ensures
        a.times(b.plus(c)) == a.times(b).plus(a.times(c)),
{
    reveal(Ext::times);
    reveal(Ext::plus);
    let p = ORDER as int;
    let w = NON_RESIDUE as int;
    let (a0, a1, b0, b1, c0, c1) = (
        a.c0 as int,
        a.c1 as int,
        b.c0 as int,
        b.c1 as int,
        c.c0 as int,
        c.c1 as int,
    );
    lemma_residue_bilinear(b0 + c0, a0, w, b1 + c1, a1);
    lemma_residue_bilinear(b1 + c1, a0, 1, b0 + c0, a1);
    lemma_mul_is_commutative((b0 + c0) % p, a0);
    lemma_mul_is_commutative((b1 + c1) % p, a1);
    lemma_mul_is_commutative((b1 + c1) % p, a0);
    lemma_mul_is_commutative((b0 + c0) % p, a1);
    lemma_split(a0, b0, c0);
    lemma_split(a1, b1, c1);
    lemma_split(a0, b1, c1);
    lemma_split(a1, b0, c0);
    lemma_mul_is_distributive_add(w, a1 * b1, a1 * c1);
    lemma_add_mod_noop(a0 * b0 + w * (a1 * b1), a0 * c0 + w * (a1 * c1), p);
    lemma_add_mod_noop(a0 * b1 + a1 * b0, a0 * c1 + a1 * c0, p);
}

/// Zero is neutral for addition.
pub proof fn lemma_zero(a: Ext)
    requires
        a.canonical(),
    ensures
        a.plus(Ext::zero_spec()) == a,
        Ext::zero_spec().plus(a) == a,
{
    reveal(Ext::plus);
}

/// Zero annihilates.
pub proof fn lemma_times_zero(a: Ext)
    ensures
        a.times(Ext::zero_spec()) == Ext::zero_spec(),
        Ext::zero_spec().times(a) == Ext::zero_spec(),
{
    reveal(Ext::times);
}

/// One is neutral for multiplication.
pub proof fn lemma_one(a: Ext)
    requires
        a.canonical(),
    ensures
        a.times(Ext::one_spec()) == a,
        Ext::one_spec().times(a) == a,
{
    reveal(Ext::times);
}

/// Subtraction undoes addition.
pub proof fn lemma_minus_plus(a: Ext, b: Ext)
    ensures
        a.minus(b).plus(b) == a.plus(Ext::zero_spec()),
        a.plus(b).minus(b) == a.plus(Ext::zero_spec()),
{
    reveal(Ext::plus);
    reveal(Ext::minus);
    let p = ORDER as int;
    lemma_add_mod_noop_right(b.c0 as int, a.c0 - b.c0, p);
    lemma_add_mod_noop_right(b.c1 as int, a.c1 - b.c1, p);
    lemma_sub_mod_noop(a.c0 + b.c0, b.c0 as int, p);
    lemma_sub_mod_noop((a.c0 + b.c0) % p, b.c0 as int, p);
    lemma_mod_twice(a.c0 + b.c0, p);
    lemma_sub_mod_noop(a.c1 + b.c1, b.c1 as int, p);
    lemma_sub_mod_noop((a.c1 + b.c1) % p, b.c1 as int, p);
    lemma_mod_twice(a.c1 + b.c1, p);
}

pub proof fn lemma_power_canonical(a: Ext, n: nat)
    ensures
        a.power(n).canonical(),
{
    if n > 0 {
        lemma_canonical(a, a.power((n - 1) as nat));
    }
}

/// `a^(m + n) = a^m * a^n`.
pub proof fn lemma_power_add(a: Ext, m: nat, n: nat)
    ensures
        a.power(m + n) == a.power(m).times(a.power(n)),
    decreases m,
{
    lemma_power_canonical(a, n);
    if m == 0 {
        lemma_one(a.power(n));
    } else {
        lemma_power_add(a, (m - 1) as nat, n);
        assert((m + n - 1) as nat == (m - 1) as nat + n);
        lemma_times_assoc(a, a.power((m - 1) as nat), a.power(n));
    }
}

/// `(a * a)^n = a^(2 * n)`.
pub proof fn lemma_power_square(a: Ext, n: nat)
    ensures
        a.times(a).power(n) == a.power(2 * n),
    decreases n,
{
    if n > 0 {
        lemma_power_square(a, (n - 1) as nat);
        assert(a.power(2 * n) == a.times(a.power((2 * n - 1) as nat)));
        assert(a.power((2 * n - 1) as nat) == a.times(a.power((2 * n - 2) as nat)));
        assert((2 * n - 2) as nat == 2 * ((n - 1) as nat));
        lemma_times_assoc(a, a, a.power((2 * n - 2) as nat));
    }
}

/// `(a^m)^n = a^(m * n)`.
pub proof fn lemma_power_mul(a: Ext, m: nat, n: nat)
    ensures
        a.power(m).power(n) == a.power(m * n),
    decreases n,
{
    if n == 0 {
        assert(m * n == 0) by (nonlinear_arith)
            requires
                n == 0,
        ;
    } else {
        lemma_power_mul(a, m, (n - 1) as nat);
        lemma_power_add(a, m, m * ((n - 1) as nat));
        assert(m + m * ((n - 1) as nat) == m * n) by (nonlinear_arith)
            requires
                n > 0,
        ;
    }
}

// What the operations compute.

/// Sums, differences and products are those of the integers, coordinate by coordinate, modulo
/// `2^64 - 2^32 + 1`, with seven for the square of the adjoined root.
pub proof fn law_operations(a: Ext, b: Ext)
    ensures
        a.plus(b).c0 == (a.c0 + b.c0) % 0xFFFF_FFFF_0000_0001,
        a.plus(b).c1 == (a.c1 + b.c1) % 0xFFFF_FFFF_0000_0001,
        a.minus(b).c0 == (a.c0 - b.c0) % 0xFFFF_FFFF_0000_0001,
        a.minus(b).c1 == (a.c1 - b.c1) % 0xFFFF_FFFF_0000_0001,
        a.times(b).c0 == (a.c0 * b.c0 + 7 * (a.c1 * b.c1)) % 0xFFFF_FFFF_0000_0001,
        a.times(b).c1 == (a.c0 * b.c1 + a.c1 * b.c0) % 0xFFFF_FFFF_0000_0001,
        a.canonical() <==> a.c0 < 0xFFFF_FFFF_0000_0001 && a.c1 < 0xFFFF_FFFF_0000_0001,
{
    reveal(Ext::plus);
    reveal(Ext::minus);
    reveal(Ext::times);
}

/// The base field is the extension's part with the second coordinate zero.
pub proof fn law_lift(x: Felt)
    ensures
        Ext::lift(x) == (Ext { c0: x.value, c1: 0 }),
        Ext::zero_spec() == (Ext { c0: 0, c1: 0 }),
        Ext::one_spec() == (Ext { c0: 1, c1: 0 }),
{
}

/// The first powers; `lemma_power_add` gives the others.
pub proof fn law_power(a: Ext)
    requires
        a.canonical(),
    ensures
        a.power(0) == (Ext { c0: 1, c1: 0 }),
        a.power(1) == a,
        a.power(2) == a.times(a),
{
    reveal_with_fuel(Ext::power, 3);
    lemma_one(a);
}

} // verus!
