//! Elements of the BLS12-381 scalar field, held as four canonical 64-bit limbs.
//! The field arithmetic itself is ark-ff's; each operation states its result modulo
//! the field's prime.
use ark_bls12_381::Fr;
use ark_ff::{BigInt, FftField, Field, PrimeField};
use vstd::arithmetic::power::pow;
use vstd::prelude::*;

verus! {

/// The prime order of the BLS12-381 scalar field.
pub open spec fn modulus() -> int {
    0x73eda753299d7d483339d80809a1d80553bda402fffe5bfeffffffff00000001int
}

/// `2^64`.
pub open spec fn limb_base() -> int {
    0x1_0000_0000_0000_0000int
}

/// The integer that four little-endian limbs denote.
pub open spec fn limb_value(l0: u64, l1: u64, l2: u64, l3: u64) -> int {
    l0 + l1 * 0x1_0000_0000_0000_0000int + l2 * 0x1_0000_0000_0000_0000_0000_0000_0000_0000int
        + l3 * 0x1_0000_0000_0000_0000_0000_0000_0000_0000_0000_0000_0000_0000int
}

/// A scalar field element in canonical form.
#[derive(Clone, Copy, Debug, PartialEq, Eq, Structural)]
pub struct Fe {
    l0: u64,
    l1: u64,
    l2: u64,
    l3: u64,
}

impl View for Fe {
    type V = int;

    closed spec fn view(&self) -> int {
        limb_value(self.l0, self.l1, self.l2, self.l3) % modulus()
    }
}

/// Limbs determine the value and the value determines the limbs.
proof fn lemma_limbs_unique(a: Fe, b: Fe)
    requires
        limb_value(a.l0, a.l1, a.l2, a.l3) == limb_value(b.l0, b.l1, b.l2, b.l3),
    ensures
        a == b,
{
    let base = limb_base() as int;
    let hi_a = a.l1 + a.l2 * base + a.l3 * base * base;
    let hi_b = b.l1 + b.l2 * base + b.l3 * base * base;
    let va = limb_value(a.l0, a.l1, a.l2, a.l3);
    let vb = limb_value(b.l0, b.l1, b.l2, b.l3);
    assert(va == a.l0 + hi_a * base) by (nonlinear_arith)
        requires
            hi_a == a.l1 + a.l2 * base + a.l3 * base * base,
            base == 0x1_0000_0000_0000_0000,
            va == a.l0 + a.l1 * 0x1_0000_0000_0000_0000int + a.l2
                * 0x1_0000_0000_0000_0000_0000_0000_0000_0000int + a.l3
                * 0x1_0000_0000_0000_0000_0000_0000_0000_0000_0000_0000_0000_0000int,
    ;
    assert(vb == b.l0 + hi_b * base) by (nonlinear_arith)
        requires
            hi_b == b.l1 + b.l2 * base + b.l3 * base * base,
            base == 0x1_0000_0000_0000_0000,
            vb == b.l0 + b.l1 * 0x1_0000_0000_0000_0000int + b.l2
                * 0x1_0000_0000_0000_0000_0000_0000_0000_0000int + b.l3
                * 0x1_0000_0000_0000_0000_0000_0000_0000_0000_0000_0000_0000_0000int,
    ;
    vstd::arithmetic::div_mod::lemma_fundamental_div_mod_converse(va, base, hi_a, a.l0 as int);
    vstd::arithmetic::div_mod::lemma_fundamental_div_mod_converse(vb, base, hi_b, b.l0 as int);
    let mid_a = a.l2 + a.l3 * base;
    let mid_b = b.l2 + b.l3 * base;
    assert(hi_a == a.l1 + mid_a * base) by (nonlinear_arith)
        requires
            hi_a == a.l1 + a.l2 * base + a.l3 * base * base,
            mid_a == a.l2 + a.l3 * base,
    ;
    assert(hi_b == b.l1 + mid_b * base) by (nonlinear_arith)
        requires
            hi_b == b.l1 + b.l2 * base + b.l3 * base * base,
            mid_b == b.l2 + b.l3 * base,
    ;
    vstd::arithmetic::div_mod::lemma_fundamental_div_mod_converse(hi_a, base, mid_a, a.l1 as int);
    vstd::arithmetic::div_mod::lemma_fundamental_div_mod_converse(hi_b, base, mid_b, b.l1 as int);
    vstd::arithmetic::div_mod::lemma_fundamental_div_mod_converse(
        mid_a,
        base,
        a.l3 as int,
        a.l2 as int,
    );
    vstd::arithmetic::div_mod::lemma_fundamental_div_mod_converse(
        mid_b,
        base,
        b.l3 as int,
        b.l2 as int,
    );
}

impl Fe {
    /// The limbs denote a value below the prime.
    pub closed spec fn canonical(self) -> bool {
        limb_value(self.l0, self.l1, self.l2, self.l3) < modulus()
    }

    /// Every element that code holds is canonical.
    #[verifier::type_invariant]
    pub open spec fn inv(self) -> bool {
        self.canonical()
    }

    /// Values are reduced.
    pub proof fn lemma_range(a: Fe)
        ensures
            0 <= a@ < modulus(),
    {
        vstd::arithmetic::div_mod::lemma_mod_bound(
            limb_value(a.l0, a.l1, a.l2, a.l3),
            modulus(),
        );
    }

    /// Canonical elements with equal values are equal.
    pub proof fn lemma_eq(a: Fe, b: Fe)
        requires
            a.canonical(),
            b.canonical(),
            a@ == b@,
        ensures
            a == b,
    {
        vstd::arithmetic::div_mod::lemma_small_mod(
            limb_value(a.l0, a.l1, a.l2, a.l3) as nat,
            modulus() as nat,
        );
        vstd::arithmetic::div_mod::lemma_small_mod(
            limb_value(b.l0, b.l1, b.l2, b.l3) as nat,
            modulus() as nat,
        );
        lemma_limbs_unique(a, b);
    }

    /// The additive identity.
    pub fn zero() -> (r: Fe)
        ensures
            r@ == 0,
    {
        proof {
            vstd::arithmetic::div_mod::lemma_small_mod(0, modulus() as nat);
        }
        Fe { l0: 0, l1: 0, l2: 0, l3: 0 }
    }

    /// The multiplicative identity.
    pub fn one() -> (r: Fe)
        ensures
            r@ == 1,
    {
        proof {
            vstd::arithmetic::div_mod::lemma_small_mod(1, modulus() as nat);
        }
        Fe { l0: 1, l1: 0, l2: 0, l3: 0 }
    }

    /// The element `x`.
    pub fn from_u64(x: u64) -> (r: Fe)
        ensures
            r@ == x,
    {
        proof {
            vstd::arithmetic::div_mod::lemma_small_mod(x as nat, modulus() as nat);
        }
        Fe { l0: x, l1: 0, l2: 0, l3: 0 }
    }

    /// Whether this is the zero element.
    pub fn is_zero(self) -> (r: bool)
        ensures
            r == (self@ == 0),
    {
        proof {
            use_type_invariant(&self);
            vstd::arithmetic::div_mod::lemma_small_mod(
                limb_value(self.l0, self.l1, self.l2, self.l3) as nat,
                modulus() as nat,
            );
        }
        self.l0 == 0 && self.l1 == 0 && self.l2 == 0 && self.l3 == 0
    }

    /// Whether this is the multiplicative identity.
    pub fn is_one(self) -> (r: bool)
        ensures
            r == (self@ == 1),
    {
        let one = Fe::one();
        proof {
            use_type_invariant(&self);
            use_type_invariant(&one);
            if self@ == 1 {
                Fe::lemma_eq(self, one);
            }
        }
        self == one
    }

    /// The little-endian 64-bit limbs of the canonical value.
    pub fn limbs(self) -> (r: [u64; 4])
        ensures
            limb_value(r[0], r[1], r[2], r[3]) == self@,
    {
        proof {
            use_type_invariant(&self);
            vstd::arithmetic::div_mod::lemma_small_mod(
                limb_value(self.l0, self.l1, self.l2, self.l3) as nat,
                modulus() as nat,
            );
        }
        [self.l0, self.l1, self.l2, self.l3]
    }

    /// The element whose canonical limbs are `l`, if they denote a value below the prime.
    pub fn from_limbs(l: [u64; 4]) -> (r: Option<Fe>)
        ensures
            r is Some <==> limb_value(l[0], l[1], l[2], l[3]) < modulus(),
            r matches Some(x) ==> x@ == limb_value(l[0], l[1], l[2], l[3]),
    {
        let p3: u64 = 0x73eda753299d7d48;
        let p2: u64 = 0x3339d80809a1d805;
        let p1: u64 = 0x53bda402fffe5bfe;
        let p0: u64 = 0xffffffff00000001;
        let below = l[3] < p3 || (l[3] == p3 && (l[2] < p2 || (l[2] == p2 && (l[1] < p1 || (l[1]
            == p1 && l[0] < p0)))));
        assert(modulus() == limb_value(p0, p1, p2, p3));
        if below {
            proof {
                vstd::arithmetic::div_mod::lemma_small_mod(
                    limb_value(l[0], l[1], l[2], l[3]) as nat,
                    modulus() as nat,
                );
            }
            Some(Fe { l0: l[0], l1: l[1], l2: l[2], l3: l[3] })
        } else {
            None
        }
    }

    /// Field sum.
    pub fn add(self, other: Fe) -> (r: Fe)
        ensures
            r@ == (self@ + other@) % modulus(),
    {
        fr_add(self, other)
    }

    /// Field difference.
    pub fn sub(self, other: Fe) -> (r: Fe)
        ensures
            r@ == (self@ + modulus() - other@) % modulus(),
    {
        proof {
            use_type_invariant(&other);
        }
        fr_sub(self, other)
    }

    /// Field product.
    pub fn mul(self, other: Fe) -> (r: Fe)
        ensures
            r@ == (self@ * other@) % modulus(),
    {
        fr_mul(self, other)
    }

    /// Additive inverse.
    pub fn neg(self) -> (r: Fe)
        ensures
            r@ == (modulus() - self@) % modulus(),
    {
        proof {
            use_type_invariant(&self);
        }
        fr_neg(self)
    }

    /// Multiplicative inverse; `None` for zero.
    pub fn inverse(self) -> (r: Option<Fe>)
        ensures
            r is None <==> self@ == 0,
            r matches Some(x) ==> (self@ * x@) % modulus() == 1,
    {
        fr_inverse(self)
    }

    /// `self` to the power `e`.
    pub fn pow(self, e: u64) -> (r: Fe)
        ensures
            r@ == pow(self@, e as nat) % modulus(),
    {
        fr_pow(self, e)
    }
}

/// `y` is a reduced inverse of `x` modulo the prime.
pub open spec fn is_inverse(x: int, y: int) -> bool {
    0 <= y < modulus() && (x * y) % modulus() == 1
}

/// The inverse of `x` modulo the prime, where one exists.
pub open spec fn inv_of(x: int) -> int {
    choose|y: int| #[trigger] is_inverse(x, y)
}

/// Inverses are unique: any reduced inverse of `x` is `inv_of(x)`.
pub proof fn lemma_inv_of(x: int, y: int)
    requires
        0 <= y < modulus(),
        (x * y) % modulus() == 1,
    ensures
        inv_of(x) == y,
        (x * inv_of(x)) % modulus() == 1,
{
    let m = modulus();
    assert(is_inverse(x, y));
    let z = inv_of(x);
    assert(is_inverse(x, z));
    // y = y (x z) = (y x) z = z, modulo the prime.
    vstd::arithmetic::div_mod::lemma_mul_mod_noop_general(y, x * z, m);
    vstd::arithmetic::div_mod::lemma_mul_mod_noop_general(y * x, z, m);
    assert(y * (x * z) == (y * x) * z) by (nonlinear_arith);
    assert(y * x == x * y) by (nonlinear_arith);
    vstd::arithmetic::div_mod::lemma_mul_mod_noop_general(x * y, z, m);
    assert(y * 1 == y);
    assert(1 * z == z);
    vstd::arithmetic::div_mod::lemma_small_mod(y as nat, m as nat);
    vstd::arithmetic::div_mod::lemma_small_mod(z as nat, m as nat);
}

/// A vector holding the elements of `s`.
pub fn copy_elements(s: &[Fe]) -> (r: Vec<Fe>)
    ensures
        r@ == s@,
{
    let mut r: Vec<Fe> = Vec::with_capacity(s.len());
    let mut i: usize = 0;
    while i < s.len()
        invariant
            i <= s.len(),
            r@ == s@.take(i as int),
        decreases s.len() - i,
    {
        r.push(s[i]);
        i = i + 1;
        assert(r@ == s@.take(i as int));
    }
    assert(s@.take(s.len() as int) == s@);
    r
}

/// `Fr + Fr` from ark-ff: the sum modulo the prime.
#[verifier::external_body]
fn fr_add(a: Fe, b: Fe) -> (r: Fe)
    ensures
        r@ == (a@ + b@) % modulus(),
{
    let x = Fr::new(BigInt::new([a.l0, a.l1, a.l2, a.l3]));
    let y = Fr::new(BigInt::new([b.l0, b.l1, b.l2, b.l3]));
    let z = (x + y).into_bigint().0;
    Fe { l0: z[0], l1: z[1], l2: z[2], l3: z[3] }
}

/// `Fr - Fr` from ark-ff: the difference modulo the prime.
#[verifier::external_body]
fn fr_sub(a: Fe, b: Fe) -> (r: Fe)
    ensures
        r@ == (a@ + modulus() - b@) % modulus(),
{
    let x = Fr::new(BigInt::new([a.l0, a.l1, a.l2, a.l3]));
    let y = Fr::new(BigInt::new([b.l0, b.l1, b.l2, b.l3]));
    let z = (x - y).into_bigint().0;
    Fe { l0: z[0], l1: z[1], l2: z[2], l3: z[3] }
}

/// `Fr * Fr` from ark-ff: the product modulo the prime.
#[verifier::external_body]
fn fr_mul(a: Fe, b: Fe) -> (r: Fe)
    ensures
        r@ == (a@ * b@) % modulus(),
{
    let x = Fr::new(BigInt::new([a.l0, a.l1, a.l2, a.l3]));
    let y = Fr::new(BigInt::new([b.l0, b.l1, b.l2, b.l3]));
    let z = (x * y).into_bigint().0;
    Fe { l0: z[0], l1: z[1], l2: z[2], l3: z[3] }
}

/// `-Fr` from ark-ff: the additive inverse modulo the prime.
#[verifier::external_body]
fn fr_neg(a: Fe) -> (r: Fe)
    ensures
        r@ == (modulus() - a@) % modulus(),
{
    let x = Fr::new(BigInt::new([a.l0, a.l1, a.l2, a.l3]));
    let z = (-x).into_bigint().0;
    Fe { l0: z[0], l1: z[1], l2: z[2], l3: z[3] }
}

/// `Field::inverse` from ark-ff: `None` exactly for zero, else the inverse modulo the prime.
#[verifier::external_body]
fn fr_inverse(a: Fe) -> (r: Option<Fe>)
    ensures
        r is None <==> a@ == 0,
        r matches Some(x) ==> (a@ * x@) % modulus() == 1,
{
    let x = Fr::new(BigInt::new([a.l0, a.l1, a.l2, a.l3]));
    match x.inverse() {
        Some(y) => {
            let z = y.into_bigint().0;
            Some(Fe { l0: z[0], l1: z[1], l2: z[2], l3: z[3] })
        },
        None => None,
    }
}

/// `Field::pow` from ark-ff with a one-limb exponent: the power modulo the prime.
#[verifier::external_body]
fn fr_pow(a: Fe, e: u64) -> (r: Fe)
    ensures
        r@ == pow(a@, e as nat) % modulus(),
{
    let x = Fr::new(BigInt::new([a.l0, a.l1, a.l2, a.l3]));
    let z = x.pow([e]).into_bigint().0;
    Fe { l0: z[0], l1: z[1], l2: z[2], l3: z[3] }
}

} // verus!
