//! Validated code parameters and the two code constructions that share them.
use crate::error::{require, Error, Result};
use crate::field::{copy_elements, modulus, Fe};
use crate::polynomial::{
    cong, distinct, fes, lemma_psum_cong, lemma_psum_lincomb, occurs_before, padded, peval, prod,
    psum,
};
use ark_bls12_381::Fr;
use ark_ff::{BigInt, FftField, PrimeField};
use ark_poly::{EvaluationDomain, Radix2EvaluationDomain};
use vstd::arithmetic::div_mod::*;
use vstd::arithmetic::power::*;
use vstd::prelude::*;

verus! {

/// `x` is a power of two: halving an even number repeatedly reaches 1.
pub open spec fn is_pow2(x: nat) -> bool
    decreases x,
{
    if x == 1 {
        true
    } else if x >= 2 && x % 2 == 0 {
        is_pow2(x / 2)
    } else {
        false
    }
}

/// Whether `x` is a power of two.
pub fn is_power_of_two(x: usize) -> (r: bool)
    ensures
        r == is_pow2(x as nat),
{
    let mut y = x;
    while y >= 2 && y % 2 == 0
        invariant
            is_pow2(x as nat) == is_pow2(y as nat),
        decreases y,
    {
        y = y / 2;
    }
    y == 1
}

/// `Fr::get_root_of_unity(n).is_some()` from ark-ff: the BLS12-381 scalar field has
/// two-adicity 32, so a root of unity of every power-of-two order up to `2^32`
/// exists. The three-smooth orders that the field also supports are left unsaid.
#[verifier::external_body]
fn scalar_root_of_unity_exists(n: u64) -> (r: bool)
    ensures
        is_pow2(n as nat) && n <= 0x1_0000_0000 ==> r,
{
    Fr::get_root_of_unity(n).is_some()
}

/// The mathematical content of a parameter set.
pub struct ParamsView {
    /// Number of groups.
    pub ell: nat,
    /// Symbols per group.
    pub m: nat,
    /// Local polynomial coefficient count.
    pub r: nat,
    /// Source groups.
    pub a: nat,
    /// Residual dimension.
    pub b: nat,
}

impl ParamsView {
    /// Encoded field elements.
    pub open spec fn n(self) -> nat {
        self.ell * self.m
    }

    /// Message field elements.
    pub open spec fn k(self) -> nat {
        self.a * self.r + self.b
    }

    /// Number of local blocks that the message fills, `ceil(k / r)`.
    pub open spec fn blocks(self) -> int {
        (self.k() + self.r - 1) / (self.r as int)
    }

    /// Maximum global polynomial degree.
    pub open spec fn degree(self) -> int {
        self.k() - 1 + (self.blocks() - 1) * (self.m - self.r)
    }

    /// The inner domain is a supported radix-2 subgroup and the group count is bounded.
    pub open spec fn domain_ok(self) -> bool {
        &&& 0 < self.ell <= 4096
        &&& is_pow2(self.m)
        &&& self.m <= 16384
    }

    /// `k = a r + b` with at least one source group and a residual only beside a parity group.
    pub open spec fn dims_ok(self) -> bool {
        &&& 2 <= self.r < self.m
        &&& 1 <= self.a <= self.ell
        &&& self.b < self.r
        &&& (self.b == 0 || self.a < self.ell)
    }

    /// Every check of `Params::new` passes.
    pub open spec fn valid(self) -> bool {
        &&& self.domain_ok()
        &&& self.dims_ok()
        &&& self.n() <= 4_194_304
    }

    /// The reason `Params::new` gives for rejecting an invalid parameter set.
    pub open spec fn rejection(self) -> Seq<char> {
        if !self.domain_ok() {
            "unsupported domain size"@
        } else if !self.dims_ok() {
            "invalid code dimensions"@
        } else {
            "experiment size limit exceeded"@
        }
    }

    /// Tamo--Barg minimum distance.
    pub open spec fn lrdas_distance(self) -> int {
        self.n() - self.degree()
    }

    /// Product-code minimum distance.
    pub open spec fn product_distance(self) -> int {
        (self.ell - self.a + 1) * (self.m - self.r + 1)
    }
}

/// The view of the five sizes.
pub open spec fn view_of(ell: usize, m: usize, r: usize, a: usize, b: usize) -> ParamsView {
    ParamsView { ell: ell as nat, m: m as nat, r: r as nat, a: a as nat, b: b as nat }
}

/// Bounds that the checks of `Params::new` give.
pub proof fn lemma_valid_bounds(v: ParamsView)
    requires
        v.valid(),
    ensures
        v.n() <= 4_194_304,
        v.m <= 16384,
        v.ell <= 4096,
        v.r + 1 <= v.m,
        v.k() <= v.n(),
        v.k() >= v.r,
        v.b == 0 ==> v.blocks() == v.a,
        v.b > 0 ==> v.blocks() == v.a + 1,
        1 <= v.blocks() <= v.ell,
        0 <= (v.blocks() - 1) * (v.m - v.r) <= v.n(),
        v.r - 1 <= v.degree() < v.n(),
        v.b == 0 ==> v.degree() + 1 == (v.a - 1) * v.m + v.r,
        v.b > 0 ==> v.degree() + 1 == v.a * v.m + v.b,
        1 <= v.lrdas_distance() <= v.n(),
        v.product_distance() >= 2,
        v.product_distance() <= v.n() + v.ell + v.m + 1,
{
    let ell = v.ell as int;
    let m = v.m as int;
    let r = v.r as int;
    let a = v.a as int;
    let b = v.b as int;
    assert(a * r <= ell * r) by (nonlinear_arith)
        requires
            a <= ell,
            r >= 0,
    ;
    assert(ell * r < ell * m) by (nonlinear_arith)
        requires
            r < m,
            ell > 0,
    ;
    assert(a * r >= r) by (nonlinear_arith)
        requires
            a >= 1,
            r >= 0,
    ;
    if b == 0 {
        assert(v.blocks() == a) by {
            assert((a * r + r - 1) / r == a) by (nonlinear_arith)
                requires
                    r >= 2,
                    a >= 1,
            {
                vstd::arithmetic::div_mod::lemma_fundamental_div_mod_converse(
                    a * r + r - 1,
                    r,
                    a,
                    r - 1,
                );
            }
        }
        assert(a * r - 1 + (a - 1) * (m - r) == a * m - m + r - 1) by (nonlinear_arith);
        assert((a - 1) * m == a * m - m) by (nonlinear_arith);
        assert(v.degree() == a * r - 1 + (a - 1) * (m - r));
        assert(v.n() == ell * m);
        assert(a * m >= m) by (nonlinear_arith)
            requires
                a >= 1,
                m >= 0,
        ;
        assert((a - 1) * (m - r) <= ell * m) by (nonlinear_arith)
            requires
                1 <= a <= ell,
                0 <= m - r <= m,
        ;
        assert(a * m <= ell * m) by (nonlinear_arith)
            requires
                a <= ell,
                m >= 0,
        ;
        assert((a - 1) * (m - r) >= 0) by (nonlinear_arith)
            requires
                a >= 1,
                m > r,
        ;
    } else {
        assert(v.blocks() == a + 1) by {
            assert((a * r + b + r - 1) / r == a + 1) by (nonlinear_arith)
                requires
                    r >= 2,
                    a >= 1,
                    0 < b < r,
            {
                vstd::arithmetic::div_mod::lemma_fundamental_div_mod_converse(
                    a * r + b + r - 1,
                    r,
                    a + 1,
                    b - 1,
                );
            }
        }
        assert(a * r + b - 1 + a * (m - r) == a * m + b - 1) by (nonlinear_arith);
        assert(v.degree() == a * r + b - 1 + a * (m - r));
        assert(v.n() == ell * m);
        assert(a * m >= m) by (nonlinear_arith)
            requires
                a >= 1,
                m >= 0,
        ;
        assert(a * (m - r) <= ell * m) by (nonlinear_arith)
            requires
                1 <= a <= ell,
                0 <= m - r <= m,
        ;
        assert((a + 1) * r <= ell * r) by (nonlinear_arith)
            requires
                a + 1 <= ell,
                r >= 0,
        ;
        assert((a + 1) * r == a * r + r) by (nonlinear_arith);
        assert((a + 1) * m == a * m + m) by (nonlinear_arith);
        assert((a + 1) * m <= ell * m) by (nonlinear_arith)
            requires
                a + 1 <= ell,
                m >= 0,
        ;
        assert(a * (m - r) >= 0) by (nonlinear_arith)
            requires
                a >= 1,
                m > r,
        ;
    }
    assert((ell - a + 1) * (m - r + 1) >= 2) by (nonlinear_arith)
        requires
            ell - a + 1 >= 1,
            m - r + 1 >= 2,
    ;
    assert((ell - a + 1) * (m - r + 1) <= (ell + 1) * (m + 1)) by (nonlinear_arith)
        requires
            0 <= ell - a + 1 <= ell + 1,
            0 <= m - r + 1 <= m + 1,
    ;
    assert((ell + 1) * (m + 1) == ell * m + ell + m + 1) by (nonlinear_arith);
}

/// Supported experiment sizes; every value satisfies the checks of [`Params::new`].
#[derive(Clone, Copy, Debug, PartialEq, Eq)]
pub struct Params {
    ell: usize,
    m: usize,
    r: usize,
    a: usize,
    b: usize,
}

impl View for Params {
    type V = ParamsView;

    closed spec fn view(&self) -> ParamsView {
        view_of(self.ell, self.m, self.r, self.a, self.b)
    }
}

impl Params {
    /// Every `Params` value passed the checks of `Params::new`.
    #[verifier::type_invariant]
    pub open spec fn inv(self) -> bool {
        self@.valid()
    }

    /// Validate a radix-2 inner domain and `k = a r + b` with at least one source group.
    pub fn new(ell: usize, m: usize, r: usize, a: usize, b: usize) -> (res: Result<Self>)
        ensures
            res is Ok <==> view_of(ell, m, r, a, b).valid(),
            res matches Ok(p) ==> p@ == view_of(ell, m, r, a, b),
            res matches Err(e) ==> e.0@ == view_of(ell, m, r, a, b).rejection(),
    {
        let ghost v = view_of(ell, m, r, a, b);
        require(
            ell > 0 && ell <= 4096 && is_power_of_two(m) && m <= 16384,
            "unsupported domain size",
        )?;
        require(
            r >= 2 && r < m && a >= 1 && a <= ell && b < r && (b == 0 || a < ell),
            "invalid code dimensions",
        )?;
        assert(ell * m <= 4096 * 16384) by (nonlinear_arith)
            requires
                ell <= 4096,
                m <= 16384,
        ;
        let n = match ell.checked_mul(m) {
            Some(n) => n,
            None => {
                return Err(Error("size overflow".to_owned()));
            },
        };
        require(n <= 4_194_304, "experiment size limit exceeded")?;
        let m64 = m as u64;
        require(scalar_root_of_unity_exists(m64), "no inner root of unity")?;
        Ok(Params { ell, m, r, a, b })
    }

    /// Whether two parameter sets are equal.
    pub fn same(self, other: Params) -> (r: bool)
        ensures
            r == (self@ == other@),
    {
        self.ell == other.ell && self.m == other.m && self.r == other.r && self.a == other.a && self.b == other.b
    }

    /// Revalidate a configuration that came from outside.
    pub fn validate(self) -> (res: Result<Self>)
        ensures
            res matches Ok(p) && p@ == self@,
    {
        proof {
            use_type_invariant(&self);
        }
        Self::new(self.ell, self.m, self.r, self.a, self.b)
    }

    /// Manuscript reference profile.
    pub fn reference() -> (p: Self)
        ensures
            p@ == view_of(123, 1024, 768, 82, 0),
    {
        assert(is_pow2(1024)) by {
            reveal_with_fuel(is_pow2, 12);
        }
        Params { ell: 123, m: 1024, r: 768, a: 82, b: 0 }
    }

    /// Small smoke profile using the same field and cryptography.
    pub fn smoke() -> (p: Self)
        ensures
            p@ == view_of(6, 16, 12, 4, 0),
    {
        assert(is_pow2(16)) by {
            reveal_with_fuel(is_pow2, 6);
        }
        Params { ell: 6, m: 16, r: 12, a: 4, b: 0 }
    }

    /// Number of groups.
    pub fn ell(self) -> (v: usize)
        ensures
            v == self@.ell,
    {
        self.ell
    }

    /// Symbols per group.
    pub fn m(self) -> (v: usize)
        ensures
            v == self@.m,
    {
        self.m
    }

    /// Local polynomial coefficient count.
    pub fn r(self) -> (v: usize)
        ensures
            v == self@.r,
    {
        self.r
    }

    /// Source groups (indices `0..a`).
    pub fn a(self) -> (v: usize)
        ensures
            v == self@.a,
    {
        self.a
    }

    /// Residual dimension (the residual group index is `a`).
    pub fn b(self) -> (v: usize)
        ensures
            v == self@.b,
    {
        self.b
    }

    /// Encoded field elements.
    pub fn n(self) -> (v: usize)
        ensures
            v == self@.n(),
    {
        proof {
            use_type_invariant(&self);
        }
        self.ell * self.m
    }

    /// Message field elements.
    pub fn k(self) -> (v: usize)
        ensures
            v == self@.k(),
    {
        proof {
            use_type_invariant(&self);
            lemma_valid_bounds(self@);
        }
        self.a * self.r + self.b
    }

    /// Maximum global polynomial degree, `k - 1 + (ceil(k / r) - 1)(m - r)`.
    pub fn degree(self) -> (v: usize)
        ensures
            v == self@.degree(),
    {
        proof {
            use_type_invariant(&self);
            lemma_valid_bounds(self@);
        }
        let k = self.k();
        let blocks = (k + self.r - 1) / self.r;
        assert(blocks == self@.blocks());
        k - 1 + (blocks - 1) * (self.m - self.r)
    }

    /// Tamo--Barg or product-code minimum distance; the product code requires `b = 0`.
    pub fn distance(self, scheme: Scheme) -> (res: Result<usize>)
        ensures
            scheme == Scheme::Lrdas ==> (res matches Ok(d) && d == self@.lrdas_distance()),
            scheme == Scheme::Product ==> (res is Ok <==> self@.b == 0),
            scheme == Scheme::Product && self@.b == 0 ==> (res matches Ok(d) && d
                == self@.product_distance()),
            scheme == Scheme::Product && self@.b != 0 ==> (res matches Err(e) && e.0@
                == "product baseline supports b=0"@),
    {
        proof {
            use_type_invariant(&self);
            lemma_valid_bounds(self@);
        }
        match scheme {
            Scheme::Lrdas => Ok(self.n() - self.degree()),
            Scheme::Product => {
                require(self.b == 0, "product baseline supports b=0")?;
                Ok((self.ell - self.a + 1) * (self.m - self.r + 1))
            },
        }
    }
}


/// The root of unity of order `m` that ark-ff's `get_root_of_unity` gives, which
/// generates ark-poly's radix-2 domain of size `m`.
pub uninterp spec fn root_of_unity(m: nat) -> int;

/// `Fr::get_root_of_unity(m)` from ark-ff, for a power-of-two order up to `2^32`: an
/// element of multiplicative order exactly `m`.
#[verifier::external_body]
pub(crate) fn fr_root_of_unity(m: u64) -> (r: Option<Fe>)
    ensures
        is_pow2(m as nat) && m <= 0x1_0000_0000 ==> r is Some,
        r matches Some(w) ==> {
            &&& w@ == root_of_unity(m as nat)
            &&& pow(w@, m as nat) % modulus() == 1
            &&& forall|i: nat| 0 < i < m ==> #[trigger] pow(w@, i) % modulus() != 1
        },
{
    match Fr::get_root_of_unity(m) {
        Some(w) => Some(Fe::from_limbs(w.into_bigint().0).unwrap()),
        None => None,
    }
}

/// `Radix2EvaluationDomain::<Fr>::new(m)` and its `fft` from ark-poly: the values of
/// the polynomial `coeffs` at `w^0, ..., w^(m-1)` for the domain's generator `w`.
#[verifier::external_body]
pub(crate) fn fr_fft(m: usize, coeffs: &[Fe]) -> (r: Vec<Fe>)
    requires
        is_pow2(m as nat),
        m <= 0x1_0000_0000,
        coeffs.len() <= m,
    ensures
        r.len() == m,
        forall|i: int|
            0 <= i < m ==> #[trigger] r@[i]@ == peval(
                fes(coeffs@),
                pow(root_of_unity(m as nat), i as nat) % modulus(),
            ),
{
    let d = Radix2EvaluationDomain::<Fr>::new(m).unwrap();
    let xs: Vec<Fr> = coeffs.iter().map(|c| Fr::new(BigInt::new(c.limbs()))).collect();
    let ys = d.fft(&xs);
    ys.iter().map(|y| Fe::from_limbs(y.into_bigint().0).unwrap()).collect()
}

/// `c` has at most `m` coefficients and takes the values `v` on the size-`m` subgroup.
pub open spec fn interpolates_subgroup(c: Seq<int>, v: Seq<int>, m: nat) -> bool {
    &&& c.len() <= m
    &&& forall|i: int|
        0 <= i < m ==> #[trigger] peval(c, pow(root_of_unity(m), i as nat) % modulus()) == v[i]
}

/// `Radix2EvaluationDomain::<Fr>::new(m)` and its `ifft` from ark-poly: the coefficients of
/// the polynomial of degree below `m` that takes the value `evals[i]` at `w^i`. That
/// polynomial is unique, so any one of at most `m` coefficients with those values has
/// the same coefficients.
#[verifier::external_body]
pub(crate) fn fr_ifft(m: usize, evals: &[Fe]) -> (r: Vec<Fe>)
    requires
        is_pow2(m as nat),
        m <= 0x1_0000_0000,
        evals.len() == m,
    ensures
        r.len() == m,
        forall|i: int|
            0 <= i < m ==> #[trigger] peval(
                fes(r@),
                pow(root_of_unity(m as nat), i as nat) % modulus(),
            ) == evals@[i]@,
        forall|c: Seq<int>| #[trigger] interpolates_subgroup(c, fes(evals@), m as nat) ==> cong(
            fes(r@),
            padded(c, m as nat),
        ),
{
    let d = Radix2EvaluationDomain::<Fr>::new(m).unwrap();
    let ys: Vec<Fr> = evals.iter().map(|c| Fr::new(BigInt::new(c.limbs()))).collect();
    let xs = d.ifft(&ys);
    xs.iter().map(|x| Fe::from_limbs(x.into_bigint().0).unwrap()).collect()
}

/// `Fr::GENERATOR` from ark-bls12-381: the multiplicative generator `7`.
#[verifier::external_body]
fn fr_generator() -> (r: Fe)
    ensures
        r@ == 7,
{
    Fe::from_limbs(Fr::GENERATOR.into_bigint().0).unwrap()
}

/// The coset shift of group `j`, `7^j`.
pub open spec fn beta_value(j: int) -> int {
    pow(7, j as nat) % modulus()
}

/// The outer label of group `j`, `beta_j^m`.
pub open spec fn gamma_value(m: int, j: int) -> int {
    pow(beta_value(j), m as nat) % modulus()
}

/// The outer labels of all groups.
pub open spec fn gamma_seq(v: ParamsView) -> Seq<int> {
    Seq::new(v.ell, |j: int| gamma_value(v.m as int, j))
}

/// `B(gamma_j)`: the product of `gamma_j - gamma_s` over the source groups.
pub open spec fn outer_value(v: ParamsView, j: int) -> int {
    prod(gamma_seq(v).take(v.a as int), gamma_seq(v)[j]) % modulus()
}

/// The product of `x - gs[i]` over `i < n` with `i != s`, in index order.
pub open spec fn prod_skip(gs: Seq<int>, x: int, s: int, n: int) -> int
    decreases n,
{
    if n <= 0 {
        1
    } else if n - 1 == s {
        prod_skip(gs, x, s, n - 1)
    } else {
        prod_skip(gs, x, s, n - 1) * (x - gs[n - 1])
    }
}

/// The Lagrange denominator of source group `s` among the source labels.
pub open spec fn lagrange_den(v: ParamsView, s: int) -> int {
    prod_skip(gamma_seq(v), gamma_seq(v)[s], s, v.a as int) % modulus()
}

/// The quantity that the weight of source `s` in group `j` is the quotient by.
pub open spec fn weight_den(v: ParamsView, j: int, s: int) -> int {
    ((gamma_seq(v)[j] - gamma_seq(v)[s]) * lagrange_den(v, s)) % modulus()
}

/// The weight of source `s` in group `j`: `1` on the diagonal of the source groups, and
/// `B(gamma_j) / ((gamma_j - gamma_s) den_s)` for a parity group.
pub open spec fn weight_ok(v: ParamsView, j: int, s: int, w: int) -> bool {
    if j < v.a {
        w == if s == j {
            1int
        } else {
            0int
        }
    } else {
        (w * weight_den(v, j, s)) % modulus() == outer_value(v, j)
    }
}

/// The cosets are distinct and every Lagrange quotient exists.
pub open spec fn constructible(v: ParamsView) -> bool {
    &&& distinct(gamma_seq(v))
    &&& forall|j: int, s: int|
        v.a <= j < v.ell && 0 <= s < v.a ==> #[trigger] weight_den(v, j, s) != 0
}

/// The evaluation point of coordinate `(j, i)`: `w^i` times the coset shift for LR-DAS.
pub open spec fn point_value(v: ParamsView, scheme: Scheme, j: int, i: int) -> int {
    let e = pow(root_of_unity(v.m), i as nat) % modulus();
    match scheme {
        Scheme::Lrdas => (e * beta_value(j)) % modulus(),
        Scheme::Product => (e * 1) % modulus(),
    }
}

/// `(pow(b, k) mod p) (b mod p) = pow(b, k + 1)` modulo `p`.
pub proof fn lemma_pow_step_mod(b: int, k: nat)
    ensures
        ((pow(b, k) % modulus()) * (b % modulus())) % modulus() == pow(b, k + 1) % modulus(),
{
    lemma_pow_adds(b, k, 1);
    lemma_pow1(b);
    lemma_mul_mod_noop(pow(b, k), b, modulus());
}


/// `acc (x - y)` with `acc` already reduced, modulo the prime.
pub proof fn lemma_mul_diff_mod(acc: int, big: int, x: int, y: int)
    requires
        acc == big % modulus(),
    ensures
        (acc * ((x + modulus() - y) % modulus())) % modulus() == (big * (x - y)) % modulus(),
{
    let m = modulus();
    lemma_mod_add_multiples_vanish(x - y, m);
    assert(x + m - y == m + (x - y));
    lemma_mul_mod_noop_general(big, x - y, m);
}

/// The coset shifts `7^j` and labels `7^(j m)`, rejecting repeated labels.
fn coset_labels(p: Params, g: Fe) -> (res: Result<(Vec<Fe>, Vec<Fe>)>)
    requires
        g@ == 7,
    ensures
        res is Ok <==> distinct(gamma_seq(p@)),
        res matches Ok((betas, gammas)) ==> {
            &&& betas.len() == p@.ell
            &&& forall|j: int| 0 <= j < p@.ell ==> #[trigger] betas@[j]@ == beta_value(j)
            &&& fes(gammas@) == gamma_seq(p@)
        },
        res matches Err(e) ==> e.0@ == "cosets are not distinct"@,
{
    proof {
        use_type_invariant(&p);
    }
    let ghost v = p@;
    let ell = p.ell();
    let m = p.m();
    let mut betas: Vec<Fe> = Vec::new();
    let mut gammas: Vec<Fe> = Vec::new();
    let mut beta = Fe::one();
    proof {
        lemma_pow0(7);
        lemma_small_mod(1, modulus() as nat);
    }
    let mut j: usize = 0;
    while j < ell
        invariant
            v == p@,
            ell == v.ell,
            m == v.m,
            g@ == 7,
            j <= ell,
            betas.len() == j,
            gammas.len() == j,
            beta@ == beta_value(j as int),
            forall|i: int| 0 <= i < j ==> #[trigger] betas@[i]@ == beta_value(i),
            fes(gammas@) == gamma_seq(v).take(j as int),
            distinct(gamma_seq(v).take(j as int)),
        decreases ell - j,
    {
        betas.push(beta);
        let gamma = beta.pow(m as u64);
        assert(gamma@ == gamma_seq(v)[j as int]);
        if occurs_before(&gammas, gammas.len(), gamma) {
            proof {
                let u = choose|u: int| 0 <= u < j && gammas@[u]@ == gamma@;
                assert(fes(gammas@)[u] == gamma_seq(v)[u]);
                assert(!distinct(gamma_seq(v)));
            }
            return Err(Error("cosets are not distinct".to_owned()));
        }
        let ghost old_g = fes(gammas@);
        gammas.push(gamma);
        proof {
            assert(fes(gammas@) == old_g.push(gamma@));
            assert(gamma_seq(v).take(j + 1) == gamma_seq(v).take(j as int).push(gamma@));
            let t = gamma_seq(v).take(j + 1);
            assert forall|a: int, b: int| 0 <= a < b < j + 1 implies #[trigger] t[a]
                != #[trigger] t[b] by {
                if b == j {
                    assert(t[a] == fes(gammas@)[a]);
                    assert(gammas@[a]@ != gamma@);
                } else {
                    assert(gamma_seq(v).take(j as int)[a] != gamma_seq(v).take(j as int)[b]);
                }
            }
            lemma_pow_step_mod(7, j as nat);
            lemma_small_mod(7, modulus() as nat);
        }
        beta = beta.mul(g);
        j = j + 1;
    }
    assert(gamma_seq(v).take(ell as int) == gamma_seq(v));
    Ok((betas, gammas))
}

/// `prod_{s < n} (x - gs[s])`.
pub(crate) fn outer_product(gammas: &[Fe], n: usize, x: Fe) -> (r: Fe)
    requires
        n <= gammas.len(),
    ensures
        r@ == prod(fes(gammas@).take(n as int), x@) % modulus(),
{
    let ghost gs = fes(gammas@);
    let mut acc = Fe::one();
    proof {
        assert(gs.take(0).len() == 0);
        lemma_small_mod(1, modulus() as nat);
    }
    let mut s: usize = 0;
    while s < n
        invariant
            gs == fes(gammas@),
            n <= gammas.len(),
            s <= n,
            acc@ == prod(gs.take(s as int), x@) % modulus(),
        decreases n - s,
    {
        let d = x.sub(gammas[s]);
        proof {
            assert(gs.take(s + 1).drop_last() == gs.take(s as int));
            assert(gs.take(s + 1).last() == gammas@[s as int]@);
            lemma_mul_diff_mod(acc@, prod(gs.take(s as int), x@), x@, gammas@[s as int]@);
        }
        acc = acc.mul(d);
        s = s + 1;
    }
    acc
}

/// `prod_{i < n, i != s} (gs[s] - gs[i])`.
fn skip_product(gammas: &[Fe], n: usize, s: usize) -> (r: Fe)
    requires
        n <= gammas.len(),
        s < gammas.len(),
    ensures
        r@ == prod_skip(fes(gammas@), gammas@[s as int]@, s as int, n as int) % modulus(),
{
    let ghost gs = fes(gammas@);
    let x = gammas[s];
    let mut acc = Fe::one();
    proof {
        lemma_small_mod(1, modulus() as nat);
    }
    let mut i: usize = 0;
    while i < n
        invariant
            gs == fes(gammas@),
            n <= gammas.len(),
            x == gammas@[s as int],
            i <= n,
            acc@ == prod_skip(gs, x@, s as int, i as int) % modulus(),
        decreases n - i,
    {
        if i != s {
            let d = x.sub(gammas[i]);
            proof {
                lemma_mul_diff_mod(acc@, prod_skip(gs, x@, s as int, i as int), x@, gs[i as int]);
            }
            acc = acc.mul(d);
        }
        i = i + 1;
    }
    acc
}

/// The source-to-group weights of group `j` and `B(gamma_j)`.
fn weight_row(p: Params, gammas: &[Fe], j: usize) -> (res: Result<(Vec<Fe>, Fe)>)
    requires
        p@.valid(),
        fes(gammas@) == gamma_seq(p@),
        j < p@.ell,
    ensures
        res is Ok <==> (j < p@.a || forall|s: int| 0 <= s < p@.a ==> #[trigger] weight_den(p@, j as int, s) != 0),
        res matches Ok((row, bv)) ==> {
            &&& row.len() == p@.a
            &&& forall|s: int| 0 <= s < p@.a ==> weight_ok(p@, j as int, s, #[trigger] row@[s]@)
            &&& bv@ == outer_value(p@, j as int)
        },
        res matches Err(e) ==> e.0@ == "Lagrange denominator"@,
{
    let ghost v = p@;
    assert(gammas@.len() == fes(gammas@).len());
    let a = p.a();
    let g = gammas[j];
    let mut row: Vec<Fe> = vec![Fe::zero(); a];
    let bv = outer_product(gammas, a, g);
    if j < a {
        row.set(j, Fe::one());
        assert forall|s: int| 0 <= s < v.a implies weight_ok(v, j as int, s, #[trigger] row@[s]@) by {
            if s != j {
                assert(row@[s]@ == 0);
            }
        }
        return Ok((row, bv));
    }
    let mut s: usize = 0;
    while s < a
        invariant
            v == p@,
            v.valid(),
            fes(gammas@) == gamma_seq(v),
            gammas.len() == v.ell,
            a == v.a,
            j < v.ell,
            j >= a,
            g == gammas@[j as int],
            bv@ == outer_value(v, j as int),
            s <= a,
            row.len() == a,
            forall|t: int| 0 <= t < s ==> weight_ok(v, j as int, t, #[trigger] row@[t]@),
            forall|t: int| 0 <= t < s ==> #[trigger] weight_den(v, j as int, t) != 0,
        decreases a - s,
    {
        let den = skip_product(gammas, a, s);
        let q = g.sub(gammas[s]).mul(den);
        proof {
            assert(den@ == lagrange_den(v, s as int));
            lemma_mul_diff_mod(
                den@,
                lagrange_den(v, s as int),
                g@,
                gammas@[s as int]@,
            );
            assert((den@ * ((g@ + modulus() - gammas@[s as int]@) % modulus())) % modulus()
                == ((g@ + modulus() - gammas@[s as int]@) % modulus() * den@) % modulus())
                by (nonlinear_arith);
            lemma_mul_mod_noop_general(lagrange_den(v, s as int), g@ - gammas@[s as int]@, modulus());
            assert(lagrange_den(v, s as int) * (g@ - gammas@[s as int]@) == (g@ - gammas@[s as int]@) * lagrange_den(v, s as int)) by (nonlinear_arith);
            assert(q@ == weight_den(v, j as int, s as int));
        }
        match q.inverse() {
            Some(inv) => {
                let w = bv.mul(inv);
                proof {
                    let m = modulus();
                    lemma_mul_mod_noop_general(bv@ * inv@, q@, m);
                    assert((bv@ * inv@) * q@ == bv@ * (inv@ * q@)) by (nonlinear_arith);
                    assert(inv@ * q@ == q@ * inv@) by (nonlinear_arith);
                    lemma_mul_mod_noop_general(bv@, inv@ * q@, m);
                    Fe::lemma_range(bv);
                    lemma_small_mod(bv@ as nat, m as nat);
                }
                row.set(s, w);
            },
            None => {
                return Err(Error("Lagrange denominator".to_owned()));
            },
        }
        s = s + 1;
    }
    Ok((row, bv))
}

/// `1, b, b^2, ..., b^(r-1)`.
fn powers_of(b: Fe, r: usize) -> (res: Vec<Fe>)
    ensures
        res.len() == r,
        forall|k: int| 0 <= k < r ==> #[trigger] res@[k]@ == pow(b@, k as nat) % modulus(),
{
    let mut out: Vec<Fe> = Vec::new();
    let mut x = Fe::one();
    proof {
        lemma_pow0(b@);
        lemma_small_mod(1, modulus() as nat);
    }
    let mut k: usize = 0;
    while k < r
        invariant
            k <= r,
            out.len() == k,
            x@ == pow(b@, k as nat) % modulus(),
            forall|i: int| 0 <= i < k ==> #[trigger] out@[i]@ == pow(b@, i as nat) % modulus(),
        decreases r - k,
    {
        out.push(x);
        proof {
            lemma_pow_step_mod(b@, k as nat);
            Fe::lemma_range(b);
            lemma_small_mod(b@ as nat, modulus() as nat);
        }
        x = x.mul(b);
        k = k + 1;
    }
    out
}


/// `c` with coefficient `k` multiplied by `b^k`.
pub open spec fn scaled(c: Seq<int>, b: int) -> Seq<int> {
    Seq::new(c.len(), |k: int| c[k] * pow(b, k as nat))
}

/// Scaling coefficient `k` by `b^k` is evaluating at `b y` in place of `y`.
pub proof fn lemma_psum_scaled(c: Seq<int>, b: int, y: int)
    ensures
        psum(scaled(c, b), y) == psum(c, b * y),
    decreases c.len(),
{
    if c.len() > 0 {
        let rest = scaled(c.drop_first(), b);
        let tail = scaled(c, b).drop_first();
        let zero = Seq::new(rest.len(), |k: int| 0int);
        assert forall|k: int| 0 <= k < tail.len() implies #[trigger] tail[k] == b * rest[k] + 0
            * zero[k] by {
            lemma_pow_adds(b, 1, k as nat);
            lemma_pow1(b);
            assert(tail[k] == c[k + 1] * pow(b, (k + 1) as nat));
            assert((k + 1) as nat == (1 + k) as nat);
            assert(c[k + 1] * (b * pow(b, k as nat)) == b * (c[k + 1] * pow(b, k as nat)) + 0
                * zero[k]) by (nonlinear_arith);
        }
        assert(tail == Seq::new(rest.len(), |k: int| b * rest[k] + 0 * zero[k]));
        lemma_psum_lincomb(rest, zero, b, 0, y);
        lemma_psum_scaled(c.drop_first(), b, y);
        lemma_pow0(b);
        assert(scaled(c, b)[0] == c[0] * 1);
        assert(y * (b * psum(c.drop_first(), b * y) + 0 * psum(zero, y)) == (b * y) * psum(
            c.drop_first(),
            b * y,
        )) by (nonlinear_arith);
    }
}

/// Deterministic public parameters. Cosets use `beta_j = 7^j`.
pub struct Domain {
    p: Params,
    omega: Fe,
    betas: Vec<Fe>,
    gammas: Vec<Fe>,
    weights: Vec<Vec<Fe>>,
    residual: Vec<Fe>,
    powers: Vec<Vec<Fe>>,
}

impl Domain {
    /// The validated dimensions.
    pub closed spec fn parameters(self) -> Params {
        self.p
    }

    /// Construct distinct cosets and the systematic Lagrange matrix.
    pub fn new(p: Params) -> (res: Result<Self>)
        ensures
            res is Ok <==> constructible(p@),
            res matches Ok(d) ==> d.parameters()@ == p@,
            !distinct(gamma_seq(p@)) ==> (res matches Err(e) && e.0@
                == "cosets are not distinct"@),
            distinct(gamma_seq(p@)) && !constructible(p@) ==> (res matches Err(e) && e.0@
                == "Lagrange denominator"@),
    {
        let ghost v = p@;
        proof {
            use_type_invariant(&p);
        }
        let omega = match fr_root_of_unity(p.m() as u64) {
            Some(w) => w,
            None => {
                return Err(Error("FFT domain".to_owned()));
            },
        };
        assert(omega@ == root_of_unity(v.m));
        let g = fr_generator();
        let (betas, gammas) = coset_labels(p, g)?;
        let ell = p.ell();
        let mut weights: Vec<Vec<Fe>> = Vec::new();
        let mut residual: Vec<Fe> = Vec::new();
        let mut j: usize = 0;
        while j < ell
            invariant
                v == p@,
                v.valid(),
                ell == v.ell,
                fes(gammas@) == gamma_seq(v),
                distinct(gamma_seq(v)),
                j <= ell,
                weights.len() == j,
                residual.len() == j,
                forall|i: int| 0 <= i < j ==> #[trigger] residual@[i]@ == outer_value(v, i),
                forall|i: int|
                    0 <= i < j ==> (#[trigger] weights@[i]).len() == v.a && forall|s: int|
                        0 <= s < v.a ==> weight_ok(v, i, s, #[trigger] weights@[i]@[s]@),
                forall|i: int, s: int|
                    v.a <= i < j && 0 <= s < v.a ==> #[trigger] weight_den(v, i, s) != 0,
            decreases ell - j,
        {
            let (row, bv) = match weight_row(p, &gammas, j) {
                Ok(x) => x,
                Err(e) => {
                    proof {
                        let s = choose|s: int| 0 <= s < v.a && weight_den(v, j as int, s) == 0;
                        assert(weight_den(v, j as int, s) == 0);
                    }
                    return Err(e);
                },
            };
            weights.push(row);
            residual.push(bv);
            j = j + 1;
        }
        let r = p.r();
        let mut powers: Vec<Vec<Fe>> = Vec::new();
        let mut j: usize = 0;
        while j < ell
            invariant
                v == p@,
                v.valid(),
                ell == v.ell,
                r == v.r,
                fes(gammas@) == gamma_seq(v),
                distinct(gamma_seq(v)),
                weights.len() == ell,
                residual.len() == ell,
                forall|i: int| 0 <= i < ell ==> #[trigger] residual@[i]@ == outer_value(v, i),
                forall|i: int|
                    0 <= i < ell ==> (#[trigger] weights@[i]).len() == v.a && forall|s: int|
                        0 <= s < v.a ==> weight_ok(v, i, s, #[trigger] weights@[i]@[s]@),
                forall|i: int, s: int|
                    v.a <= i < ell && 0 <= s < v.a ==> #[trigger] weight_den(v, i, s) != 0,
                betas.len() == ell,
                forall|i: int| 0 <= i < ell ==> #[trigger] betas@[i]@ == beta_value(i),
                j <= ell,
                powers.len() == j,
                forall|i: int|
                    0 <= i < j ==> (#[trigger] powers@[i]).len() == v.r && forall|k: int|
                        0 <= k < v.r ==> #[trigger] powers@[i]@[k]@ == pow(
                            beta_value(i),
                            k as nat,
                        ) % modulus(),
            decreases ell - j,
        {
            let row = powers_of(betas[j], r);
            powers.push(row);
            j = j + 1;
        }
        assert(constructible(v));
        assert(betas.len() == v.ell);
        assert(gammas.len() == v.ell) by {
            assert(gammas@.len() == fes(gammas@).len());
        }
        assert(powers.len() == v.ell);
        let d = Domain { p, omega, betas, gammas, weights, residual, powers };
        assert(d.weight_table().len() == v.ell);
        assert forall|j: int| 0 <= j < v.ell implies (#[trigger] d.weight_table()[j]).len() == v.a
            && forall|s: int| 0 <= s < v.a ==> weight_ok(v, j, s, #[trigger] d.weight_table()[j][s]) by {
            assert(d.weight_table()[j] == fes(d.weights@[j]@));
            assert forall|s: int| 0 <= s < v.a implies weight_ok(v, j, s, #[trigger] d.weight_table()[j][s]) by {
                assert(d.weight_table()[j][s] == d.weights@[j]@[s]@);
            }
        }
        Ok(d)
    }

    /// Validated dimensions.
    pub fn params(&self) -> (p: Params)
        ensures
            p == self.parameters(),
            p@.valid(),
            constructible(p@),
            self.weight_table().len() == p@.ell,
            forall|j: int|
                0 <= j < p@.ell ==> (#[trigger] self.weight_table()[j]).len() == p@.a && forall|
                    s: int,
                | 0 <= s < p@.a ==> weight_ok(p@, j, s, #[trigger] self.weight_table()[j][s]),
    {
        proof {
            use_type_invariant(self);
        }
        self.p
    }

    /// Outer evaluation labels, for independent specification tests.
    pub fn gammas(&self) -> (g: &[Fe])
        ensures
            fes(g@) == gamma_seq(self.parameters()@),
            g.len() == self.parameters()@.ell,
    {
        proof {
            use_type_invariant(self);
        }
        self.gammas.as_slice()
    }

    /// Public source-to-group coefficients.
    pub fn weights(&self, j: usize) -> (res: Result<&[Fe]>)
        ensures
            res is Ok <==> j < self.parameters()@.ell,
            res matches Ok(row) ==> {
                &&& row.len() == self.parameters()@.a
                &&& fes(row@) == self.weight_table()[j as int]
                &&& forall|s: int|
                    0 <= s < self.parameters()@.a ==> weight_ok(
                        self.parameters()@,
                        j as int,
                        s,
                        #[trigger] row@[s]@,
                    )
            },
            res matches Err(e) ==> e.0@ == "group index"@,
    {
        proof {
            use_type_invariant(self);
        }
        if j < self.weights.len() {
            assert(self.weight_table()[j as int] == fes(self.weights@[j as int]@));
            Ok(self.weights[j].as_slice())
        } else {
            Err(Error("group index".to_owned()))
        }
    }

    /// `B(gamma_j)`.
    pub fn residual_weight(&self, j: usize) -> (res: Result<Fe>)
        ensures
            res is Ok <==> j < self.parameters()@.ell,
            res matches Ok(w) ==> w@ == outer_value(self.parameters()@, j as int),
            res matches Err(e) ==> e.0@ == "group index"@,
    {
        proof {
            use_type_invariant(self);
        }
        if j < self.residual.len() {
            Ok(self.residual[j])
        } else {
            Err(Error("group index".to_owned()))
        }
    }

    /// Checked coordinate. Index semantics include a group even for the product code.
    pub fn point(&self, scheme: Scheme, j: usize, index: usize) -> (res: Result<Fe>)
        ensures
            res is Ok <==> j < self.parameters()@.ell && index < self.parameters()@.m && (scheme
                != Scheme::Product || self.parameters()@.b == 0),
            res matches Ok(x) ==> x@ == point_value(
                self.parameters()@,
                scheme,
                j as int,
                index as int,
            ),
            !(j < self.parameters()@.ell && index < self.parameters()@.m) ==> (res matches Err(e)
                && e.0@ == "coordinate out of bounds"@),
            j < self.parameters()@.ell && index < self.parameters()@.m && !(scheme
                != Scheme::Product || self.parameters()@.b == 0) ==> (res matches Err(e) && e.0@
                == "product baseline requires b=0"@),
    {
        proof {
            use_type_invariant(self);
        }
        require(j < self.p.ell() && index < self.p.m(), "coordinate out of bounds")?;
        require(scheme != Scheme::Product || self.p.b() == 0, "product baseline requires b=0")?;
        let e = self.omega.pow(index as u64);
        let shift = if scheme == Scheme::Lrdas {
            self.betas[j]
        } else {
            Fe::one()
        };
        Ok(e.mul(shift))
    }

    /// Multiply local coefficients by `beta_j^i` (no FFT, no allocation).
    pub fn scale_in_place(&self, j: usize, coeffs: &mut Vec<Fe>) -> (res: Result<()>)
        ensures
            res is Ok <==> j < self.parameters()@.ell && old(coeffs).len()
                <= self.parameters()@.r,
            res is Err ==> final(coeffs)@ == old(coeffs)@,
            res matches Err(e) ==> e.0@ == "scaling dimensions"@,
            res is Ok ==> final(coeffs).len() == old(coeffs).len(),
            res is Ok ==> forall|k: int|
                0 <= k < old(coeffs).len() ==> #[trigger] final(coeffs)@[k]@ == (old(
                    coeffs,
                )@[k]@ * (pow(beta_value(j as int), k as nat) % modulus())) % modulus(),
    {
        proof {
            use_type_invariant(self);
        }
        require(j < self.p.ell() && coeffs.len() <= self.p.r(), "scaling dimensions")?;
        let ghost start = coeffs@;
        let row = &self.powers[j];
        let mut k: usize = 0;
        while k < coeffs.len()
            invariant
                start.len() == coeffs.len(),
                coeffs.len() <= row.len(),
                forall|i: int|
                    0 <= i < row.len() ==> #[trigger] row@[i]@ == pow(
                        beta_value(j as int),
                        i as nat,
                    ) % modulus(),
                k <= coeffs.len(),
                forall|i: int| k <= i < coeffs.len() ==> #[trigger] coeffs@[i] == start[i],
                forall|i: int|
                    0 <= i < k ==> #[trigger] coeffs@[i]@ == (start[i]@ * (pow(
                        beta_value(j as int),
                        i as nat,
                    ) % modulus())) % modulus(),
            decreases start.len() - k,
        {
            let c = coeffs[k].mul(row[k]);
            coeffs.set(k, c);
            k = k + 1;
        }
        Ok(())
    }

    /// Evaluate a local polynomial by a size-`m` FFT, with coset scaling for LR-DAS.
    pub fn evaluate(&self, scheme: Scheme, j: usize, coeffs: &[Fe]) -> (res: Result<Vec<Fe>>)
        ensures
            res is Ok <==> j < self.parameters()@.ell && coeffs.len() <= self.parameters()@.r
                && (scheme != Scheme::Product || self.parameters()@.b == 0),
            !(j < self.parameters()@.ell && coeffs.len() <= self.parameters()@.r) ==> (res matches Err(
                e,
            ) && e.0@ == "evaluation dimensions"@),
            j < self.parameters()@.ell && coeffs.len() <= self.parameters()@.r && !(scheme
                != Scheme::Product || self.parameters()@.b == 0) ==> (res matches Err(e) && e.0@
                == "product baseline requires b=0"@),
            res matches Ok(values) ==> {
                &&& values.len() == self.parameters()@.m
                &&& forall|i: int|
                    0 <= i < self.parameters()@.m ==> #[trigger] values@[i]@ == peval(
                        fes(coeffs@),
                        point_value(self.parameters()@, scheme, j as int, i),
                    )
            },
    {
        proof {
            use_type_invariant(self);
        }
        let ghost v = self.p@;
        require(j < self.p.ell() && coeffs.len() <= self.p.r(), "evaluation dimensions")?;
        require(scheme != Scheme::Product || self.p.b() == 0, "product baseline requires b=0")?;
        let mut padded = copy_elements(coeffs);
        if scheme == Scheme::Lrdas {
            let _ = self.scale_in_place(j, &mut padded);
        }
        let m = self.p.m();
        let values = fr_fft(m, &padded);
        proof {
            let c = fes(coeffs@);
            let b = beta_value(j as int);
            assert forall|i: int| 0 <= i < v.m implies #[trigger] values@[i]@ == peval(
                c,
                point_value(v, scheme, j as int, i),
            ) by {
                let e = pow(root_of_unity(v.m), i as nat) % modulus();
                Fe::lemma_range(self.omega);
                if scheme == Scheme::Lrdas {
                    assert(cong(fes(padded@), scaled(c, b))) by {
                        assert forall|k: int| 0 <= k < c.len() implies #[trigger] (fes(padded@)[k]
                            % modulus()) == scaled(c, b)[k] % modulus() by {
                            lemma_mod_twice(coeffs@[k]@ * (pow(b, k as nat) % modulus()), modulus());
                            lemma_mul_mod_noop_general(c[k], pow(b, k as nat), modulus());
                        }
                    }
                    lemma_psum_cong(fes(padded@), scaled(c, b), e, e);
                    lemma_psum_scaled(c, b, e);
                    lemma_mod_twice(e * b, modulus());
                    assert(b * e == e * b) by (nonlinear_arith);
                    lemma_psum_cong(c, c, b * e, (e * b) % modulus());
                } else {
                    assert(fes(padded@) == c);
                    lemma_mod_twice(e, modulus());
                    assert(e * 1 == e);
                }
            }
        }
        Ok(values)
    }

    /// The source-to-group weights, row `j` for group `j`.
    pub closed spec fn weight_table(self) -> Seq<Seq<int>> {
        Seq::new(self.weights@.len(), |j: int| fes(self.weights@[j]@))
    }

    /// Every field holds the value its specification gives.
    #[verifier::type_invariant]
    closed spec fn inv(self) -> bool {
        let v = self.p@;
        &&& v.valid()
        &&& constructible(v)
        &&& self.omega@ == root_of_unity(v.m)
        &&& self.betas.len() == v.ell
        &&& self.gammas.len() == v.ell
        &&& self.weights.len() == v.ell
        &&& self.residual.len() == v.ell
        &&& self.powers.len() == v.ell
        &&& forall|j: int| 0 <= j < v.ell ==> #[trigger] self.betas@[j]@ == beta_value(j)
        &&& fes(self.gammas@) == gamma_seq(v)
        &&& forall|j: int| 0 <= j < v.ell ==> #[trigger] self.residual@[j]@ == outer_value(v, j)
        &&& forall|j: int|
            0 <= j < v.ell ==> (#[trigger] self.weights@[j]).len() == v.a && forall|s: int|
                0 <= s < v.a ==> weight_ok(v, j, s, #[trigger] self.weights@[j]@[s]@)
        &&& self.weight_table().len() == v.ell
        &&& forall|j: int|
            0 <= j < v.ell ==> (#[trigger] self.weight_table()[j]).len() == v.a && forall|s: int|
                0 <= s < v.a ==> weight_ok(v, j, s, #[trigger] self.weight_table()[j][s])
        &&& forall|j: int|
            0 <= j < v.ell ==> (#[trigger] self.powers@[j]).len() == v.r && forall|k: int|
                0 <= k < v.r ==> #[trigger] self.powers@[j]@[k]@ == pow(beta_value(j), k as nat)
                    % modulus()
    }
}

/// The two constructions share local coefficients; only their inner domains differ.
#[derive(Clone, Copy, Debug, PartialEq, Eq, Structural)]
pub enum Scheme {
    /// Group-dependent cosets.
    Lrdas,
    /// A common inner subgroup and a source-compressed outer Reed--Solomon code.
    Product,
}

/// Machine-readable name of a scheme.
pub open spec fn scheme_name(s: Scheme) -> Seq<char> {
    match s {
        Scheme::Lrdas => "lrdas"@,
        Scheme::Product => "product"@,
    }
}

impl Scheme {
    /// Stable machine-readable name.
    pub fn name(self) -> (s: &'static str)
        ensures
            s@ == scheme_name(self),
    {
        match self {
            Scheme::Lrdas => "lrdas",
            Scheme::Product => "product",
        }
    }
}

} // verus!
