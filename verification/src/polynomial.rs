//! Small dense polynomial arithmetic over the scalar field, in ascending coefficient
//! order. Arbitrary-point interpolation uses a product polynomial and synthetic
//! division, with `O(t^2)` field work; it is not a general FFT decoder.
//!
//! Contracts are stated over integer polynomials: `psum` is the exact value of a
//! coefficient sequence at a point, and field results are these values modulo the
//! field's prime.
use crate::error::{require, Error, Result};
use crate::field::{modulus, Fe};
use ark_bls12_381::Fr;
use ark_ff::{BigInt, PrimeField};
use vstd::arithmetic::div_mod::*;
use vstd::arithmetic::power::{lemma_pow0, lemma_pow1, lemma_pow_adds, pow};
use vstd::prelude::*;

verus! {

/// The values of field elements.
pub open spec fn fes(p: Seq<Fe>) -> Seq<int> {
    p.map_values(|c: Fe| c@)
}

/// The exact value of the integer polynomial `s` at `x`.
pub open spec fn psum(s: Seq<int>, x: int) -> int
    decreases s.len(),
{
    if s.len() == 0 {
        0
    } else {
        s[0] + x * psum(s.drop_first(), x)
    }
}

/// The field value of the polynomial `s` at `x`.
pub open spec fn peval(s: Seq<int>, x: int) -> int {
    psum(s, x) % modulus()
}

/// Coefficient `k`, zero outside the sequence.
pub open spec fn coef(s: Seq<int>, k: int) -> int {
    if 0 <= k < s.len() {
        s[k]
    } else {
        0
    }
}

/// `s` times `X - a`, exactly.
pub open spec fn lin(s: Seq<int>, a: int) -> Seq<int> {
    Seq::new(s.len() + 1, |k: int| coef(s, k - 1) - a * coef(s, k))
}

/// The monic product of `X - xs[u]`, factors taken in order.
pub open spec fn vanish(xs: Seq<int>) -> Seq<int>
    decreases xs.len(),
{
    if xs.len() == 0 {
        seq![1int]
    } else {
        lin(vanish(xs.drop_last()), xs.last())
    }
}

/// The product of `x - xs[u]`.
pub open spec fn prod(xs: Seq<int>, x: int) -> int
    decreases xs.len(),
{
    if xs.len() == 0 {
        1
    } else {
        prod(xs.drop_last(), x) * (x - xs.last())
    }
}

/// The formal derivative.
pub open spec fn deriv(s: Seq<int>) -> Seq<int> {
    Seq::new(if s.len() == 0 { 0 } else { (s.len() - 1) as nat }, |k: int| (k + 1) * s[k + 1])
}

/// Same length and coefficientwise congruent modulo the prime.
pub open spec fn cong(s: Seq<int>, t: Seq<int>) -> bool {
    &&& s.len() == t.len()
    &&& forall|k: int| 0 <= k < s.len() ==> #[trigger] (s[k] % modulus()) == t[k] % modulus()
}

/// No value occurs twice.
pub open spec fn distinct(xs: Seq<int>) -> bool {
    forall|u: int, v: int| 0 <= u < v < xs.len() ==> xs[u] != xs[v]
}

/// The modulus is positive.
pub proof fn lemma_modulus_positive()
    ensures
        modulus() > 1,
{
}

/// `a0 + x a` is congruent to `b0 + y b` when the parts are.
pub proof fn lemma_cong_step(a0: int, x: int, a: int, b0: int, y: int, b: int)
    requires
        a0 % modulus() == b0 % modulus(),
        x % modulus() == y % modulus(),
        a % modulus() == b % modulus(),
    ensures
        (a0 + x * a) % modulus() == (b0 + y * b) % modulus(),
{
    let m = modulus();
    lemma_mul_mod_noop(x, a, m);
    lemma_mul_mod_noop(y, b, m);
    lemma_add_mod_noop(a0, x * a, m);
    lemma_add_mod_noop(b0, y * b, m);
}

/// Congruent polynomials at congruent points have congruent values.
pub proof fn lemma_psum_cong(s: Seq<int>, t: Seq<int>, x: int, y: int)
    requires
        cong(s, t),
        x % modulus() == y % modulus(),
    ensures
        psum(s, x) % modulus() == psum(t, y) % modulus(),
    decreases s.len(),
{
    if s.len() > 0 {
        assert(cong(s.drop_first(), t.drop_first())) by {
            assert forall|k: int| 0 <= k < s.len() - 1 implies #[trigger] (s.drop_first()[k]
                % modulus()) == t.drop_first()[k] % modulus() by {
                assert(s[k + 1] % modulus() == t[k + 1] % modulus());
            }
        }
        lemma_psum_cong(s.drop_first(), t.drop_first(), x, y);
        assert(s[0] % modulus() == t[0] % modulus());
        lemma_cong_step(
            s[0],
            x,
            psum(s.drop_first(), x),
            t[0],
            y,
            psum(t.drop_first(), y),
        );
    }
}

/// The value of `c u + d v` is `c` times that of `u` plus `d` times that of `v`.
pub proof fn lemma_psum_lincomb(u: Seq<int>, v: Seq<int>, c: int, d: int, x: int)
    requires
        u.len() == v.len(),
    ensures
        psum(Seq::new(u.len(), |k: int| c * u[k] + d * v[k]), x) == c * psum(u, x) + d * psum(
            v,
            x,
        ),
    decreases u.len(),
{
    let w = Seq::new(u.len(), |k: int| c * u[k] + d * v[k]);
    if u.len() > 0 {
        let w1 = Seq::new(
            u.drop_first().len(),
            |k: int| c * u.drop_first()[k] + d * v.drop_first()[k],
        );
        assert(w.drop_first() == w1);
        lemma_psum_lincomb(u.drop_first(), v.drop_first(), c, d, x);
        let pu = psum(u.drop_first(), x);
        let pv = psum(v.drop_first(), x);
        let u0 = u[0];
        let v0 = v[0];
        assert(w[0] == c * u0 + d * v0);
        lemma_dist_swap(x, c, pu, d, pv);
        assert(c * (u0 + x * pu) == c * u0 + c * (x * pu)) by (nonlinear_arith);
        assert(d * (v0 + x * pv) == d * v0 + d * (x * pv)) by (nonlinear_arith);
    }
}

/// `x (c p + d q) = c (x p) + d (x q)`.
pub proof fn lemma_dist_swap(x: int, c: int, p: int, d: int, q: int)
    ensures
        x * (c * p + d * q) == c * (x * p) + d * (x * q),
{
    assert(x * (c * p + d * q) == x * (c * p) + x * (d * q)) by (nonlinear_arith);
    assert(x * (c * p) == c * (x * p)) by (nonlinear_arith);
    assert(x * (d * q) == d * (x * q)) by (nonlinear_arith);
}

/// A trailing zero does not change the value.
pub proof fn lemma_psum_push_zero(s: Seq<int>, x: int)
    ensures
        psum(s.push(0), x) == psum(s, x),
    decreases s.len(),
{
    if s.len() > 0 {
        assert(s.push(0).drop_first() == s.drop_first().push(0));
        assert(s.push(0)[0] == s[0]);
        lemma_psum_push_zero(s.drop_first(), x);
        assert(psum(s.push(0), x) == s[0] + x * psum(s.drop_first(), x));
    } else {
        assert(s.push(0).drop_first().len() == 0);
        assert(psum(s.push(0).drop_first(), x) == 0);
        assert(s.push(0)[0] == 0);
        assert(x * 0 == 0);
        assert(psum(s.push(0), x) == 0);
    }
}

/// The value of `s` times `X - a` is `(x - a)` times the value of `s`.
pub proof fn lemma_psum_lin(s: Seq<int>, a: int, x: int)
    ensures
        psum(lin(s, a), x) == (x - a) * psum(s, x),
{
    let shifted = seq![0int] + s;
    let extended = s.push(0);
    assert(shifted.drop_first() == s);
    let combined = Seq::new(shifted.len(), |k: int| 1 * shifted[k] + (-a) * extended[k]);
    assert forall|k: int| 0 <= k < combined.len() implies #[trigger] lin(s, a)[k]
        == combined[k] by {
        let sk1 = coef(s, k - 1);
        let sk = coef(s, k);
        assert(shifted[k] == sk1);
        assert(extended[k] == sk);
        assert(sk1 - a * sk == 1 * sk1 + (-a) * sk) by (nonlinear_arith);
    }
    assert(lin(s, a) == combined);
    lemma_psum_lincomb(shifted, extended, 1, -a, x);
    lemma_psum_push_zero(s, x);
    assert(1 * (0 + x * psum(s, x)) + (-a) * psum(s, x) == (x - a) * psum(s, x))
        by (nonlinear_arith);
}

/// The value of a vanishing polynomial is the product of its factors' values.
pub proof fn lemma_psum_vanish(xs: Seq<int>, x: int)
    ensures
        psum(vanish(xs), x) == prod(xs, x),
        vanish(xs).len() == xs.len() + 1,
    decreases xs.len(),
{
    if xs.len() == 0 {
        assert(seq![1int].drop_first().len() == 0);
        assert(psum(seq![1int].drop_first(), x) == 0);
        assert(x * 0 == 0);
        assert(psum(seq![1int], x) == 1);
    } else {
        lemma_psum_vanish(xs.drop_last(), x);
        lemma_psum_lin(vanish(xs.drop_last()), xs.last(), x);
        assert((x - xs.last()) * prod(xs.drop_last(), x) == prod(xs.drop_last(), x) * (x
            - xs.last())) by (nonlinear_arith);
    }
}

/// A product with a vanishing factor is zero.
pub proof fn lemma_prod_root(xs: Seq<int>, x: int, u: int)
    requires
        0 <= u < xs.len(),
        xs[u] == x,
    ensures
        prod(xs, x) == 0,
    decreases xs.len(),
{
    let rest = prod(xs.drop_last(), x);
    if u < xs.len() - 1 {
        assert(xs.drop_last()[u] == xs[u]);
        lemma_prod_root(xs.drop_last(), x, u);
        assert(0 * (x - xs.last()) == 0);
    } else {
        assert(rest * 0 == 0);
    }
}

/// Multiplying congruent polynomials by the same linear factor keeps them congruent.
pub proof fn lemma_cong_lin(s: Seq<int>, t: Seq<int>, a: int)
    requires
        cong(s, t),
    ensures
        cong(lin(s, a), lin(t, a)),
{
    assert forall|k: int| 0 <= k < lin(s, a).len() implies #[trigger] (lin(s, a)[k] % modulus())
        == lin(t, a)[k] % modulus() by {
        let s1 = coef(s, k - 1);
        let s0 = coef(s, k);
        let t1 = coef(t, k - 1);
        let t0 = coef(t, k);
        if 0 <= k - 1 < s.len() {
            assert(s[k - 1] % modulus() == t[k - 1] % modulus());
        }
        if 0 <= k < s.len() {
            assert(s[k] % modulus() == t[k] % modulus());
        }
        lemma_cong_step(s1, -a, s0, t1, -a, t0);
        assert(s1 - a * s0 == s1 + (-a) * s0) by (nonlinear_arith);
        assert(t1 - a * t0 == t1 + (-a) * t0) by (nonlinear_arith);
    }
}

/// `a - x b` computed with a reduced product: `(a + p - (x b mod p)) mod p`.
pub proof fn lemma_sub_mul_mod(a: int, x: int, b: int)
    ensures
        (a + modulus() - (x * b) % modulus()) % modulus() == (a - x * b) % modulus(),
{
    let m = modulus();
    lemma_sub_mod_noop(a + m, x * b, m);
    lemma_mod_twice(x * b, m);
    lemma_sub_mod_noop(a + m, (x * b) % m, m);
    lemma_mod_add_multiples_vanish(a - x * b, m);
}

/// Whether `x` occurs among the first `i` elements of `xs`.
pub fn occurs_before(xs: &[Fe], i: usize, x: Fe) -> (r: bool)
    requires
        i <= xs.len(),
    ensures
        r <==> exists|u: int| 0 <= u < i && xs@[u]@ == x@,
{
    let mut u: usize = 0;
    while u < i
        invariant
            i <= xs.len(),
            u <= i,
            forall|w: int| 0 <= w < u ==> xs@[w]@ != x@,
        decreases i - u,
    {
        let v = xs[u];
        if v == x {
            return true;
        }
        proof {
            use_type_invariant(&v);
            use_type_invariant(&x);
            if v@ == x@ {
                Fe::lemma_eq(v, x);
            }
        }
        u = u + 1;
    }
    false
}

/// The vanishing polynomial is monic of degree `xs.len()`.
pub proof fn lemma_vanish_monic(xs: Seq<int>)
    ensures
        vanish(xs).len() == xs.len() + 1,
        vanish(xs)[xs.len() as int] == 1,
    decreases xs.len(),
{
    if xs.len() > 0 {
        let v = vanish(xs.drop_last());
        lemma_vanish_monic(xs.drop_last());
        assert(xs.last() * coef(v, v.len() as int) == 0);
        assert(lin(v, xs.last())[v.len() as int] == coef(v, v.len() - 1) - xs.last() * coef(v, v.len() as int));
    }
}

/// `s` padded with zeros (or cut) to length `n`.
pub open spec fn padded(s: Seq<int>, n: nat) -> Seq<int> {
    Seq::new(n, |k: int| coef(s, k))
}

/// Zeros appended to a polynomial do not change its value.
pub proof fn lemma_psum_padded(s: Seq<int>, n: nat, y: int)
    requires
        n >= s.len(),
    ensures
        psum(padded(s, n), y) == psum(s, y),
    decreases n,
{
    if n == s.len() {
        assert(padded(s, n) == s);
    } else {
        lemma_psum_padded(s, (n - 1) as nat, y);
        assert(padded(s, n) == padded(s, (n - 1) as nat).push(0));
        lemma_psum_push_zero(padded(s, (n - 1) as nat), y);
    }
}

/// Multiply `p` in place by `X - x`.
pub fn multiply_linear(p: &mut Vec<Fe>, x: Fe)
    ensures
        cong(fes(final(p)@), lin(fes(old(p)@), x@)),
        final(p).len() == old(p).len() + 1,
{
    let ghost before = fes(p@);
    p.push(Fe::zero());
    let ghost pushed = fes(p@);
    let mut k = p.len() - 1;
    while k >= 1
        invariant
            1 <= p.len(),
            k < p.len(),
            p.len() == pushed.len(),
            forall|j: int| 0 <= j <= k ==> #[trigger] fes(p@)[j] == pushed[j],
            forall|j: int|
                k < j < p.len() ==> #[trigger] (fes(p@)[j] % modulus()) == (pushed[j - 1]
                    - x@ * pushed[j]) % modulus(),
        decreases k,
    {
        let prev = p[k - 1];
        let cur = p[k];
        assert(fes(p@)[k - 1] == pushed[k - 1]);
        assert(fes(p@)[k as int] == pushed[k as int]);
        let updated = prev.sub(x.mul(cur));
        proof {
            lemma_sub_mul_mod(prev@, x@, cur@);
            lemma_mod_twice(prev@ - x@ * cur@, modulus());
        }
        let ghost old_p = fes(p@);
        p.set(k, updated);
        assert(fes(p@) == old_p.update(k as int, updated@));
        k = k - 1;
    }
    let first = p[0];
    let scaled = first.mul(x.neg());
    proof {
        let m = modulus();
        Fe::lemma_range(x);
        lemma_mul_mod_noop_general(first@, m - x@, m);
        lemma_mod_multiples_vanish(first@, -first@ * x@, m);
        assert(first@ * (m - x@) == m * first@ + (-first@ * x@)) by (nonlinear_arith);
        assert(0 - x@ * first@ == -first@ * x@) by (nonlinear_arith);
    }
    let ghost old_p = fes(p@);
    p.set(0, scaled);
    proof {
        assert(fes(p@) == old_p.update(0, scaled@));
        assert(old_p[0] == pushed[0]);
        assert(pushed == before.push(0));
        assert(cong(fes(p@), lin(before, x@))) by {
            assert forall|j: int| 0 <= j < fes(p@).len() implies #[trigger] (fes(p@)[j]
                % modulus()) == lin(before, x@)[j] % modulus() by {
                if j == 0 {
                    assert(coef(before, -1) == 0);
                    assert(coef(before, 0) == pushed[0]);
                } else {
                    assert(coef(before, j - 1) == pushed[j - 1]);
                    assert(coef(before, j) == pushed[j]);
                }
                lemma_mod_twice(fes(p@)[j], modulus());
            }
        }
    }
}

/// Monic product of `X - x`, rejecting duplicate coordinates.
pub fn vanishing(xs: &[Fe]) -> (res: Result<Vec<Fe>>)
    ensures
        res is Ok <==> distinct(fes(xs@)),
        res matches Ok(p) ==> cong(fes(p@), vanish(fes(xs@))),
        res matches Ok(p) ==> forall|x: int| #[trigger]
            peval(fes(p@), x) == prod(fes(xs@), x) % modulus(),
        res matches Err(e) ==> e.0@ == "duplicate coordinates"@,
{
    let ghost xv = fes(xs@);
    let mut p: Vec<Fe> = vec![Fe::one()];
    proof {
        assert(xv.take(0).len() == 0);
        assert(vanish(xv.take(0)) == seq![1int]);
        assert(fes(p@)[0] == 1);
        assert(1int % modulus() == 1);
    }
    let mut i: usize = 0;
    while i < xs.len()
        invariant
            xv == fes(xs@),
            i <= xs.len(),
            p.len() == i + 1,
            cong(fes(p@), vanish(xv.take(i as int))),
            distinct(xv.take(i as int)),
        decreases xs.len() - i,
    {
        let x = xs[i];
        if occurs_before(xs, i, x) {
            assert(!distinct(xv)) by {
                let u = choose|u: int| 0 <= u < i && xs@[u]@ == x@;
                assert(xv[u] == xv[i as int]);
            }
            return Err(Error("duplicate coordinates".to_owned()));
        }
        let ghost before = fes(p@);
        multiply_linear(&mut p, x);
        proof {
            lemma_cong_lin(before, vanish(xv.take(i as int)), x@);
            assert(xv.take(i + 1).drop_last() == xv.take(i as int));
            assert(xv.take(i + 1).last() == x@);
            let t1 = xv.take(i + 1);
            assert(distinct(t1)) by {
                assert forall|u: int, v: int| 0 <= u < v < i + 1 implies #[trigger] t1[u]
                    != #[trigger] t1[v] by {
                    if v == i {
                        assert(xv[u] == xs@[u]@);
                    } else {
                        assert(xv.take(i as int)[u] != xv.take(i as int)[v]);
                    }
                }
            }
        }
        i = i + 1;
    }
    proof {
        assert(xv.take(i as int) == xv);
        assert forall|x: int| #[trigger] peval(fes(p@), x) == prod(xv, x) % modulus() by {
            lemma_psum_cong(fes(p@), vanish(xv), x, x);
            lemma_psum_vanish(xv, x);
        }
    }
    Ok(p)
}

/// `q` times `X - a`, plus the constant `c`.
pub open spec fn lin_plus(q: Seq<int>, a: int, c: int) -> Seq<int> {
    lin(q, a).update(0, lin(q, a)[0] + c)
}

/// The value of `q (X - a) + c` at `y`.
pub proof fn lemma_psum_lin_plus(q: Seq<int>, a: int, c: int, y: int)
    ensures
        psum(lin_plus(q, a, c), y) == (y - a) * psum(q, y) + c,
{
    let s = lin(q, a);
    lemma_psum_lin(q, a, y);
    assert(lin_plus(q, a, c).drop_first() == s.drop_first());
}

/// The recurrence of synthetic division by `X - a`.
pub open spec fn synthetic(pv: Seq<int>, qv: Seq<int>, a: int, c: int) -> bool {
    &&& pv.len() >= 2
    &&& qv.len() == pv.len() - 1
    &&& forall|j: int|
        0 <= j < pv.len() - 1 ==> #[trigger] qv[j] == (pv[j + 1] + a * coef(qv, j + 1))
            % modulus()
    &&& c == (pv[0] + a * coef(qv, 0)) % modulus()
}

/// Synthetic division leaves `p = q (X - a) + c` coefficientwise.
pub proof fn lemma_synthetic_division(pv: Seq<int>, qv: Seq<int>, a: int, c: int)
    requires
        synthetic(pv, qv, a, c),
        forall|k: int| 0 <= k < pv.len() ==> 0 <= #[trigger] pv[k] < modulus(),
    ensures
        cong(pv, lin_plus(qv, a, c)),
{
    let m = modulus();
    assert forall|k: int| 0 <= k < pv.len() implies #[trigger] (pv[k] % m) == lin_plus(
        qv,
        a,
        c,
    )[k] % m by {
        lemma_small_mod(pv[k] as nat, m as nat);
        if k == 0 {
            let w = pv[0] + a * coef(qv, 0);
            assert(coef(qv, -1) == 0);
            assert(lin_plus(qv, a, c)[0] == 0 - a * coef(qv, 0) + c);
            lemma_fundamental_div_mod(w, m);
            assert(c - a * coef(qv, 0) == pv[0] - m * (w / m));
            lemma_mod_multiples_vanish(-(w / m), pv[0], m);
        } else {
            let w = pv[k] + a * coef(qv, k);
            assert(qv[k - 1] == w % m);
            assert(lin_plus(qv, a, c)[k] == qv[k - 1] - a * coef(qv, k));
            lemma_fundamental_div_mod(w, m);
            assert(qv[k - 1] - a * coef(qv, k) == pv[k] - m * (w / m));
            lemma_mod_multiples_vanish(-(w / m), pv[k], m);
        }
    }
}

/// Synthetic division by `X - x`: the quotient and the remainder, which is the value at `x`.
#[verifier::spinoff_prover]
pub fn divide_linear(p: &[Fe], x: Fe) -> (res: (Vec<Fe>, Fe))
    ensures
        p.len() < 2 ==> res.0.len() == 0,
        p.len() >= 2 ==> res.0.len() == p.len() - 1 && cong(
            fes(p@),
            lin_plus(fes(res.0@), x@, res.1@),
        ),
        res.1@ == peval(fes(p@), x@),
        forall|y: int| #[trigger]
            peval(fes(p@), y) == ((y - x@) * psum(fes(res.0@), y) + res.1@) % modulus(),
{
    let ghost pv = fes(p@);
    if p.len() < 2 {
        let c = if p.len() == 1 {
            p[0]
        } else {
            Fe::zero()
        };
        proof {
            Fe::lemma_range(c);
            let e = Seq::<Fe>::empty();
            assert(fes(e).len() == 0);
            assert forall|y: int| #[trigger]
                peval(pv, y) == ((y - x@) * psum(fes(e), y) + c@) % modulus() by {
                assert((y - x@) * 0 == 0) by (nonlinear_arith);
                if p.len() == 1 {
                    assert(pv.drop_first().len() == 0);
                    assert(psum(pv.drop_first(), y) == 0);
                    assert(y * 0 == 0) by (nonlinear_arith);
                }
            }
            assert(peval(pv, x@) == ((x@ - x@) * psum(fes(e), x@) + c@) % modulus());
            lemma_small_mod(c@ as nat, modulus() as nat);
        }
        return (Vec::new(), c);
    }
    let n = p.len();
    let mut q: Vec<Fe> = vec![Fe::zero(); n - 1];
    let mut c = p[n - 1];
    let mut i = n - 1;
    proof {
        Fe::lemma_range(c);
        lemma_small_mod(c@ as nat, modulus() as nat);
        assert(coef(fes(q@), (n - 1) as int) == 0);
        assert((x@ * 0) == 0);
    }
    while i >= 1
        invariant
            pv == fes(p@),
            n == p.len(),
            n >= 2,
            q.len() == n - 1,
            i <= n - 1,
            c@ == (pv[i as int] + x@ * coef(fes(q@), i as int)) % modulus(),
            forall|j: int|
                i <= j < n - 1 ==> #[trigger] fes(q@)[j] == (pv[j + 1] + x@ * coef(
                    fes(q@),
                    j + 1,
                )) % modulus(),
        decreases i,
    {
        let ghost old_q = fes(q@);
        q.set(i - 1, c);
        assert(fes(q@) == old_q.update(i - 1, c@));
        let pi = p[i - 1];
        let t = x.mul(c);
        c = pi.add(t);
        assert(coef(fes(q@), i as int) == coef(old_q, i as int));
        assert forall|j: int| (i - 1) <= j < n - 1 implies #[trigger] fes(q@)[j] == (pv[j + 1]
            + x@ * coef(fes(q@), j + 1)) % modulus() by {
            if j >= i {
                assert(fes(q@)[j] == old_q[j]);
                assert(coef(fes(q@), j + 1) == coef(old_q, j + 1));
            }
        }
        proof {
            let m = modulus();
            lemma_add_mod_noop_right(pi@, x@ * c@, m);
            assert(pv[i - 1] == pi@);
            assert(coef(fes(q@), i - 1) == fes(q@)[i - 1]);
            let old_c = fes(q@)[i - 1];
            lemma_mul_mod_noop_general(x@, old_c, m);
            lemma_add_mod_noop_right(pi@, x@ * old_c, m);
        }
        i = i - 1;
    }
    let ghost qv = fes(q@);
    proof {
        assert forall|k: int| 0 <= k < pv.len() implies 0 <= #[trigger] pv[k] < modulus() by {
            Fe::lemma_range(p@[k]);
        }
        lemma_synthetic_division(pv, qv, x@, c@);
        assert forall|y: int| #[trigger]
            peval(pv, y) == ((y - x@) * psum(qv, y) + c@) % modulus() by {
            lemma_psum_cong(pv, lin_plus(qv, x@, c@), y, y);
            lemma_psum_lin_plus(qv, x@, c@, y);
        }
        assert(peval(pv, x@) == ((x@ - x@) * psum(qv, x@) + c@) % modulus());
        assert((x@ - x@) * psum(qv, x@) == 0) by (nonlinear_arith);
        Fe::lemma_range(c);
        lemma_small_mod(c@ as nat, modulus() as nat);
    }
    (q, c)
}

/// The coefficients of `s (X - a)` at every index.
pub proof fn lemma_coef_lin(s: Seq<int>, a: int, j: int)
    ensures
        coef(lin(s, a), j) == coef(s, j - 1) - a * coef(s, j),
{
    if !(0 <= j < lin(s, a).len()) {
        assert(coef(s, j - 1) == 0 && coef(s, j) == 0);
        assert(a * 0 == 0);
    }
}

/// Linear factors commute.
pub proof fn lemma_lin_commute(s: Seq<int>, a: int, b: int)
    ensures
        lin(lin(s, a), b) == lin(lin(s, b), a),
{
    let l = lin(lin(s, a), b);
    let r = lin(lin(s, b), a);
    assert forall|k: int| 0 <= k < l.len() implies #[trigger] l[k] == r[k] by {
        lemma_coef_lin(s, a, k - 1);
        lemma_coef_lin(s, a, k);
        lemma_coef_lin(s, b, k - 1);
        lemma_coef_lin(s, b, k);
        let s2 = coef(s, k - 2);
        let s1 = coef(s, k - 1);
        let s0 = coef(s, k);
        assert((s2 - a * s1) - b * (s1 - a * s0) == (s2 - b * s1) - a * (s1 - b * s0))
            by (nonlinear_arith);
    }
    assert(l == r);
}

/// Any factor of a vanishing polynomial can be taken last.
pub proof fn lemma_vanish_remove(xs: Seq<int>, t: int)
    requires
        0 <= t < xs.len(),
    ensures
        vanish(xs) == lin(vanish(xs.remove(t)), xs[t]),
    decreases xs.len(),
{
    if t == xs.len() - 1 {
        assert(xs.remove(t) == xs.drop_last());
    } else {
        let init = xs.drop_last();
        lemma_vanish_remove(init, t);
        assert(init[t] == xs[t]);
        lemma_lin_commute(vanish(init.remove(t)), xs[t], xs.last());
        assert(xs.remove(t).drop_last() == init.remove(t));
        assert(xs.remove(t).last() == xs.last());
    }
}

/// `q_k - a q_{k+1} = w_k - a w_{k+1}` and `q_{k+1} = w_{k+1}` give `q_k = w_k`, modulo the prime.
proof fn lemma_cancel_step(qk: int, q1: int, wk: int, w1: int, a: int)
    requires
        (qk - a * q1) % modulus() == (wk - a * w1) % modulus(),
        q1 % modulus() == w1 % modulus(),
    ensures
        qk % modulus() == wk % modulus(),
{
    let m = modulus();
    lemma_mul_mod_noop_general(a, q1, m);
    lemma_mul_mod_noop_general(a, w1, m);
    lemma_add_mod_noop(qk - a * q1, a * q1, m);
    lemma_add_mod_noop(wk - a * w1, a * w1, m);
    lemma_mul_mod_noop(a, q1, m);
    lemma_mul_mod_noop(a, w1, m);
}

/// If `q (X - a) + c` and `w (X - a)` agree, then `q` and `w` agree from index `k` on.
proof fn lemma_cancel_from(q: Seq<int>, w: Seq<int>, a: int, c: int, k: int)
    requires
        q.len() == w.len(),
        cong(lin_plus(q, a, c), lin(w, a)),
        0 <= k <= q.len(),
    ensures
        forall|j: int| k <= j < q.len() ==> #[trigger] (q[j] % modulus()) == w[j] % modulus(),
    decreases q.len() - k,
{
    if k < q.len() {
        lemma_cancel_from(q, w, a, c, k + 1);
        let i = k + 1;
        assert(lin_plus(q, a, c)[i] == lin(q, a)[i]);
        assert(lin_plus(q, a, c)[i] % modulus() == lin(w, a)[i] % modulus());
        if k + 1 < q.len() {
            assert(q[k + 1] % modulus() == w[k + 1] % modulus());
        } else {
            assert(coef(q, k + 1) == 0 && coef(w, k + 1) == 0);
        }
        lemma_cancel_step(q[k], coef(q, k + 1), w[k], coef(w, k + 1), a);
    }
}

/// Division by a monic linear factor is exact and unique: equal products have equal
/// cofactors and no remainder.
pub proof fn lemma_linear_cancel(q: Seq<int>, w: Seq<int>, a: int, c: int)
    requires
        q.len() == w.len(),
        q.len() >= 1,
        cong(lin_plus(q, a, c), lin(w, a)),
    ensures
        cong(q, w),
        c % modulus() == 0,
{
    lemma_cancel_from(q, w, a, c, 0);
    let m = modulus();
    assert(lin_plus(q, a, c)[0] % m == lin(w, a)[0] % m);
    assert(coef(q, -1) == 0 && coef(w, -1) == 0);
    assert(lin_plus(q, a, c)[0] == 0 - a * q[0] + c);
    assert(lin(w, a)[0] == 0 - a * w[0]);
    assert(q[0] % m == w[0] % m);
    lemma_mul_mod_noop_general(a, q[0], m);
    lemma_mul_mod_noop_general(a, w[0], m);
    lemma_sub_mod_noop(c, a * q[0], m);
    lemma_sub_mod_noop(0, a * w[0], m);
    lemma_mul_mod_noop(a, q[0], m);
    lemma_mul_mod_noop(a, w[0], m);
    lemma_sub_mod_noop(c - a * q[0], -a * q[0], m);
    assert(c - a * q[0] - (-a * q[0]) == c) by (nonlinear_arith);
    assert(0 - a * w[0] - (-a * q[0]) == a * q[0] - a * w[0]) by (nonlinear_arith);
    lemma_sub_mod_noop(a * q[0], a * w[0], m);
    lemma_mod_twice(a * q[0], m);
}

/// Coefficients of the derivative at every index.
pub proof fn lemma_coef_deriv(s: Seq<int>, j: int)
    requires
        j >= -1,
    ensures
        coef(deriv(s), j) == (j + 1) * coef(s, j + 1),
{
    if !(0 <= j < deriv(s).len()) {
        assert(coef(s, j + 1) == 0 || j == -1);
        assert((j + 1) * 0 == 0);
    }
}

/// Product rule for a linear factor: `(w (X - a))' = w + w' (X - a)`.
pub proof fn lemma_deriv_lin(w: Seq<int>, a: int)
    requires
        w.len() >= 1,
    ensures
        deriv(lin(w, a)) == Seq::new(w.len(), |k: int| 1 * w[k] + 1 * lin(deriv(w), a)[k]),
{
    let l = deriv(lin(w, a));
    let r = Seq::new(w.len(), |k: int| 1 * w[k] + 1 * lin(deriv(w), a)[k]);
    assert forall|k: int| 0 <= k < l.len() implies #[trigger] l[k] == r[k] by {
        lemma_coef_lin(w, a, k + 1);
        lemma_coef_lin(deriv(w), a, k);
        lemma_coef_deriv(w, k - 1);
        lemma_coef_deriv(w, k);
        let w0 = coef(w, k);
        let w1 = coef(w, k + 1);
        assert(w[k] == w0);
        assert((k + 1) * (w0 - a * w1) == 1 * w0 + 1 * (k * w0 - a * ((k + 1) * w1)))
            by (nonlinear_arith);
    }
    assert(l == r);
}

/// The derivative of a vanishing polynomial at one of its roots is the product of the
/// differences to the other roots.
pub proof fn lemma_deriv_at_root(xs: Seq<int>, t: int)
    requires
        0 <= t < xs.len(),
    ensures
        psum(deriv(vanish(xs)), xs[t]) == prod(xs.remove(t), xs[t]),
{
    let a = xs[t];
    let w = vanish(xs.remove(t));
    lemma_vanish_remove(xs, t);
    lemma_psum_vanish(xs.remove(t), a);
    lemma_deriv_lin(w, a);
    lemma_psum_lincomb(w, lin(deriv(w), a), 1, 1, a);
    lemma_psum_lin(deriv(w), a, a);
    assert((a - a) * psum(deriv(w), a) == 0) by (nonlinear_arith);
}

/// Congruent polynomials have congruent derivatives.
pub proof fn lemma_cong_deriv(s: Seq<int>, t: Seq<int>)
    requires
        cong(s, t),
    ensures
        cong(deriv(s), deriv(t)),
{
    assert forall|k: int| 0 <= k < deriv(s).len() implies #[trigger] (deriv(s)[k] % modulus())
        == deriv(t)[k] % modulus() by {
        assert(s[k + 1] % modulus() == t[k + 1] % modulus());
        lemma_mul_mod_noop_general(k + 1, s[k + 1], modulus());
        lemma_mul_mod_noop_general(k + 1, t[k + 1], modulus());
    }
}

/// A root among the other factors makes the quotient vanish there.
pub proof fn lemma_prod_remove_root(xs: Seq<int>, s: int, t: int)
    requires
        0 <= s < xs.len(),
        0 <= t < xs.len(),
        s != t,
    ensures
        prod(xs.remove(s), xs[t]) == 0,
{
    if t < s {
        assert(xs.remove(s)[t] == xs[t]);
        lemma_prod_root(xs.remove(s), xs[t], t);
    } else {
        assert(xs.remove(s)[t - 1] == xs[t]);
        lemma_prod_root(xs.remove(s), xs[t], t - 1);
    }
}

/// The zero polynomial vanishes everywhere.
pub proof fn lemma_psum_zero(s: Seq<int>, x: int)
    requires
        forall|k: int| 0 <= k < s.len() ==> #[trigger] s[k] == 0,
    ensures
        psum(s, x) == 0,
    decreases s.len(),
{
    if s.len() > 0 {
        lemma_psum_zero(s.drop_first(), x);
        assert(x * 0 == 0);
    }
}

/// The quotient of the vanishing polynomial by one of its factors is the product of the
/// other factors, and the remainder is zero.
pub proof fn lemma_quotient_is_cofactor(zv: Seq<int>, qv: Seq<int>, xv: Seq<int>, s: int, c: int)
    requires
        0 <= s < xv.len(),
        cong(zv, vanish(xv)),
        zv.len() >= 2,
        qv.len() == zv.len() - 1,
        cong(zv, lin_plus(qv, xv[s], c)),
        vanish(xv) == lin(vanish(xv.remove(s)), xv[s]),
    ensures
        cong(qv, vanish(xv.remove(s))),
        forall|y: int| #[trigger] peval(qv, y) == prod(xv.remove(s), y) % modulus(),
{
    let w = vanish(xv.remove(s));
    lemma_psum_vanish(xv.remove(s), 0);
    assert(cong(lin_plus(qv, xv[s], c), lin(w, xv[s]))) by {
        assert forall|k: int| 0 <= k < zv.len() implies #[trigger] (lin_plus(qv, xv[s], c)[k]
            % modulus()) == lin(w, xv[s])[k] % modulus() by {
            assert(zv[k] % modulus() == lin_plus(qv, xv[s], c)[k] % modulus());
            assert(zv[k] % modulus() == vanish(xv)[k] % modulus());
        }
    }
    lemma_linear_cancel(qv, w, xv[s], c);
    assert forall|y: int| #[trigger] peval(qv, y) == prod(xv.remove(s), y) % modulus() by {
        lemma_psum_cong(qv, w, y, y);
        lemma_psum_vanish(xv.remove(s), y);
    }
}

/// One step of the interpolation sum: adding `w q_s` fixes the value at `x_s` to `y_s`
/// and leaves the values at the other points unchanged.
pub proof fn lemma_interpolation_step(
    before: Seq<int>,
    after: Seq<int>,
    qv: Seq<int>,
    xv: Seq<int>,
    yv: Seq<int>,
    s: int,
    w: int,
    inv: int,
)
    requires
        0 <= s < xv.len(),
        before.len() == xv.len(),
        qv.len() == xv.len(),
        yv.len() == xv.len(),
        after.len() == before.len(),
        forall|j: int| 0 <= j < yv.len() ==> 0 <= #[trigger] yv[j] < modulus(),
        forall|j: int|
            0 <= j < before.len() ==> #[trigger] (after[j] % modulus()) == (1 * before[j] + w
                * qv[j]) % modulus(),
        forall|y: int| #[trigger] peval(qv, y) == prod(xv.remove(s), y) % modulus(),
        w == (yv[s] * inv) % modulus(),
        (inv * denominator(xv, s)) % modulus() == 1,
        forall|t: int|
            0 <= t < xv.len() ==> #[trigger] peval(before, xv[t]) == if t < s {
                yv[t]
            } else {
                0
            },
    ensures
        forall|t: int|
            0 <= t < xv.len() ==> #[trigger] peval(after, xv[t]) == if t < s + 1 {
                yv[t]
            } else {
                0
            },
{
    let m = modulus();
    let comb = Seq::new(before.len(), |k: int| 1 * before[k] + w * qv[k]);
    assert(cong(after, comb));
    assert forall|t: int| 0 <= t < xv.len() implies #[trigger] peval(after, xv[t]) == if t < s
        + 1 {
        yv[t]
    } else {
        0
    } by {
        let x = xv[t];
        lemma_psum_cong(after, comb, x, x);
        lemma_psum_lincomb(before, qv, 1, w, x);
        let b = psum(before, x);
        let qx = psum(qv, x);
        lemma_add_mod_noop(1 * b, w * qx, m);
        lemma_mul_mod_noop_general(w, qx, m);
        assert(1 * b == b);
        assert(b % m == peval(before, x));
        assert(qx % m == peval(qv, x));
        if t != s {
            lemma_prod_remove_root(xv, s, t);
            assert(qx % m == 0);
            assert(w * 0 == 0);
            lemma_mod_twice(b, m);
            assert(0int % m == 0);
            if t < s {
                lemma_small_mod(yv[t] as nat, m as nat);
            }
        } else {
            assert(qx % m == denominator(xv, s));
            assert(b % m == 0);
            let den = denominator(xv, s);
            lemma_mul_mod_noop_general(yv[s] * inv, den, m);
            assert((yv[s] * inv) * den == yv[s] * (inv * den)) by (nonlinear_arith);
            lemma_mul_mod_noop_general(yv[s], inv * den, m);
            assert(yv[s] * 1 == yv[s]);
            lemma_small_mod(yv[s] as nat, m as nat);
            lemma_mod_twice(w * den, m);
        }
    }
}

/// Horner evaluation.
pub fn evaluate(p: &[Fe], x: Fe) -> (v: Fe)
    ensures
        v@ == peval(fes(p@), x@),
{
    let ghost s = fes(p@);
    let mut v = Fe::zero();
    let mut i = p.len();
    assert(s.subrange(i as int, s.len() as int).len() == 0);
    while i > 0
        invariant
            s == fes(p@),
            i <= p.len(),
            v@ == peval(s.subrange(i as int, s.len() as int), x@),
        decreases i,
    {
        i = i - 1;
        let ghost rest = s.subrange(i + 1, s.len() as int);
        let ghost cur = s.subrange(i as int, s.len() as int);
        assert(cur.drop_first() == rest);
        let c = p[i];
        proof {
            Fe::lemma_range(c);
        }
        let t = v.mul(x);
        let nv = t.add(c);
        proof {
            let m = modulus();
            lemma_mul_mod_noop_general(psum(rest, x@), x@, m);
            lemma_add_mod_noop(psum(rest, x@) * x@, p[i as int]@, m);
            lemma_mod_twice(psum(rest, x@) * x@, m);
            assert(p[i as int]@ % m == p[i as int]@) by {
                lemma_small_mod(p[i as int]@ as nat, m as nat);
            }
            assert(psum(rest, x@) * x@ == x@ * psum(rest, x@)) by (nonlinear_arith);
            assert(cur[0] == p[i as int]@);
        }
        v = nv;
    }
    assert(s.subrange(0, s.len() as int) == s);
    v
}

/// `ark_ff::batch_inversion`: every nonzero element is replaced by its inverse and
/// zeros are left in place.
#[verifier::external_body]
pub(crate) fn fr_batch_inversion(v: &mut Vec<Fe>)
    ensures
        final(v).len() == old(v).len(),
        forall|i: int|
            0 <= i < old(v).len() ==> (#[trigger] old(v)@[i])@ == 0 ==> final(v)@[i]@ == 0,
        forall|i: int|
            0 <= i < old(v).len() ==> (#[trigger] old(v)@[i])@ != 0 ==> (old(v)@[i]@
                * final(v)@[i]@) % modulus() == 1,
{
    let mut xs: Vec<Fr> = v.iter().map(|c| Fr::new(BigInt::new(c.limbs()))).collect();
    ark_ff::batch_inversion(&mut xs);
    let out: Vec<Fe> = xs.iter().map(|x| Fe::from_limbs(x.into_bigint().0).unwrap()).collect();
    *v = out;
}

/// The interpolation denominator at point `t`: the product of its differences to the
/// other points, in the field. For distinct points of a prime field it is never zero.
pub open spec fn denominator(xs: Seq<int>, t: int) -> int {
    prod(xs.remove(t), xs[t]) % modulus()
}

/// The derivative coefficients `i z[i]` of `z`.
fn derivative(z: &[Fe]) -> (d: Vec<Fe>)
    requires
        z.len() >= 1,
    ensures
        cong(fes(d@), deriv(fes(z@))),
{
    let mut d: Vec<Fe> = Vec::new();
    let mut i: usize = 1;
    while i < z.len()
        invariant
            1 <= i <= z.len(),
            d.len() == i - 1,
            forall|k: int|
                0 <= k < i - 1 ==> #[trigger] (fes(d@)[k] % modulus()) == deriv(fes(z@))[k]
                    % modulus(),
        decreases z.len() - i,
    {
        let v = z[i].mul(Fe::from_u64(i as u64));
        proof {
            lemma_mod_twice(z[i as int]@ * i, modulus());
            assert(z[i as int]@ * i == i * z[i as int]@) by (nonlinear_arith);
            assert(deriv(fes(z@))[i - 1] == ((i - 1) + 1) * fes(z@)[i as int]);
        }
        let ghost old_d = fes(d@);
        d.push(v);
        proof {
            assert(fes(d@) == old_d.push(v@));
            assert(v@ % modulus() == deriv(fes(z@))[i - 1] % modulus());
        }
        i = i + 1;
    }
    d
}

/// The Lagrange weight `ys[s] / denominator(xs, s)` of point `s`.
pub open spec fn lagrange_weight(xs: Seq<int>, ys: Seq<int>, s: int) -> int {
    (ys[s] * crate::field::inv_of(denominator(xs, s))) % modulus()
}

/// Coefficient `k` of the sum over the first `s` points of the weight times the product
/// of `X - xs[u]` over the other points.
pub open spec fn lagrange_sum(xs: Seq<int>, ys: Seq<int>, s: nat, k: int) -> int
    decreases s,
{
    if s == 0 {
        0
    } else {
        lagrange_sum(xs, ys, (s - 1) as nat, k) + lagrange_weight(xs, ys, s - 1) * coef(
            vanish(xs.remove(s - 1)),
            k,
        )
    }
}

/// The reduced coefficients of the Lagrange interpolant of `ys` at `xs`.
pub open spec fn lagrange(xs: Seq<int>, ys: Seq<int>) -> Seq<int> {
    Seq::new(xs.len(), |k: int| lagrange_sum(xs, ys, xs.len(), k) % modulus())
}

/// At a single point the denominator is one and a reduced value is its own interpolant.
pub proof fn lemma_lagrange_single(xs: Seq<int>, ys: Seq<int>)
    requires
        xs.len() == 1,
        ys.len() == 1,
        0 <= ys[0] < modulus(),
    ensures
        denominator(xs, 0) == 1,
        lagrange(xs, ys) == ys,
{
    let m = modulus();
    lemma_modulus_positive();
    assert(xs.remove(0).len() == 0);
    assert(prod(xs.remove(0), xs[0]) == 1);
    lemma_small_mod(1, m as nat);
    assert((1int * 1int) % m == 1);
    crate::field::lemma_inv_of(1, 1);
    lemma_small_mod(ys[0] as nat, m as nat);
    assert(ys[0] * 1 == ys[0]);
    assert(lagrange_weight(xs, ys, 0) == ys[0]);
    assert(vanish(xs.remove(0)) == seq![1int]);
    assert(coef(vanish(xs.remove(0)), 0) == 1);
    assert(lagrange_sum(xs, ys, 0, 0) == 0);
    assert(lagrange_sum(xs, ys, 1, 0) == ys[0]);
    assert(lagrange(xs, ys)[0] == ys[0]);
}

/// One accumulation step, modulo the prime.
proof fn lemma_accumulate(a: int, w: int, q: int, v: int)
    requires
        q % modulus() == v % modulus(),
    ensures
        (a % modulus() + w * q) % modulus() == (a + w * v) % modulus(),
{
    let m = modulus();
    lemma_modulus_positive();
    lemma_add_mod_noop(a, w * q, m);
    lemma_add_mod_noop(a % m, w * q, m);
    lemma_mod_twice(a, m);
    lemma_mul_mod_noop_right(w, q, m);
    lemma_mul_mod_noop_right(w, v, m);
    lemma_add_mod_noop(a, w * v, m);
}

/// Coefficients of the unique interpolant of degree below `t`. Coordinates must be distinct.
pub fn interpolate(xs: &[Fe], ys: &[Fe]) -> (res: Result<Vec<Fe>>)
    ensures
        res is Ok <==> {
            &&& xs.len() > 0
            &&& xs.len() == ys.len()
            &&& distinct(fes(xs@))
            &&& forall|t: int| 0 <= t < xs.len() ==> #[trigger] denominator(fes(xs@), t) != 0
        },
        !(xs.len() > 0 && xs.len() == ys.len()) ==> (res matches Err(e) && e.0@
            == "interpolation lengths"@),
        xs.len() > 0 && xs.len() == ys.len() && !distinct(fes(xs@)) ==> (res matches Err(e)
            && e.0@ == "duplicate coordinates"@),
        xs.len() > 0 && xs.len() == ys.len() && distinct(fes(xs@)) ==> (res matches Err(e)
            ==> e.0@ == "interpolation denominator"@),
        res matches Ok(out) ==> {
            &&& out.len() == xs.len()
            &&& forall|t: int|
                0 <= t < xs.len() ==> #[trigger] peval(fes(out@), xs@[t]@) == ys@[t]@
            &&& fes(out@) == lagrange(fes(xs@), fes(ys@))
        },
{
    require(xs.len() > 0 && xs.len() == ys.len(), "interpolation lengths")?;
    let ghost xv = fes(xs@);
    let n = xs.len();
    let z = vanishing(xs)?;
    proof {
        lemma_psum_vanish(xv, 0);
    }
    let d = derivative(&z);
    let mut inv: Vec<Fe> = Vec::new();
    let mut t: usize = 0;
    while t < n
        invariant
            xv == fes(xs@),
            n == xs.len(),
            t <= n,
            inv.len() == t,
            cong(fes(d@), deriv(fes(z@))),
            cong(fes(z@), vanish(xv)),
            forall|u: int| 0 <= u < t ==> #[trigger] inv@[u]@ == denominator(xv, u),
        decreases n - t,
    {
        let v = evaluate(&d, xs[t]);
        proof {
            lemma_cong_deriv(fes(z@), vanish(xv));
            lemma_psum_cong(fes(d@), deriv(vanish(xv)), xv[t as int], xv[t as int]);
            lemma_deriv_at_root(xv, t as int);
        }
        inv.push(v);
        t = t + 1;
    }
    let mut all_nonzero = true;
    let mut u: usize = 0;
    while u < n
        invariant
            n == inv.len(),
            u <= n,
            all_nonzero <==> forall|w: int| 0 <= w < u ==> #[trigger] inv@[w]@ != 0,
        decreases n - u,
    {
        if inv[u].is_zero() {
            all_nonzero = false;
        }
        u = u + 1;
    }
    if !all_nonzero {
        return Err(Error("interpolation denominator".to_owned()));
    }
    let ghost dens = inv@;
    fr_batch_inversion(&mut inv);
    proof {
        assert forall|w: int| 0 <= w < n implies (#[trigger] inv@[w]@ * denominator(xv, w))
            % modulus() == 1 by {
            assert(dens[w]@ != 0);
            assert(dens[w]@ == denominator(xv, w));
            assert(dens[w]@ * inv@[w]@ == inv@[w]@ * dens[w]@) by (nonlinear_arith);
        }
        assert forall|j: int| 0 <= j < n implies 0 <= #[trigger] fes(ys@)[j] < modulus() by {
            Fe::lemma_range(ys@[j]);
        }
        assert forall|j: int| 0 <= j < n implies #[trigger] denominator(xv, j) != 0 by {
            assert(dens[j]@ != 0);
        }
    }
    let mut out: Vec<Fe> = vec![Fe::zero(); n];
    proof {
        assert forall|t: int| 0 <= t < n implies #[trigger] peval(fes(out@), xv[t]) == 0 by {
            assert(fes(out@) == Seq::new(n as nat, |k: int| 0int));
            lemma_psum_zero(fes(out@), xv[t]);
        }
    }
    let mut s: usize = 0;
    while s < n
        invariant
            xv == fes(xs@),
            n == xs.len(),
            n == ys.len(),
            s <= n,
            out.len() == n,
            inv.len() == n,
            z.len() == n + 1,
            distinct(xv),
            cong(fes(z@), vanish(xv)),
            forall|j: int| 0 <= j < n ==> 0 <= #[trigger] fes(ys@)[j] < modulus(),
            forall|j: int| 0 <= j < n ==> #[trigger] denominator(xv, j) != 0,
            forall|w: int|
                0 <= w < n ==> (#[trigger] inv@[w]@ * denominator(xv, w)) % modulus() == 1,
            forall|j: int|
                0 <= j < n ==> #[trigger] fes(out@)[j] == lagrange_sum(xv, fes(ys@), s as nat, j) % modulus(),
            forall|t: int|
                0 <= t < n ==> #[trigger] peval(fes(out@), xv[t]) == if t < s {
                    ys@[t]@
                } else {
                    0
                },
        decreases n - s,
    {
        let x = xs[s];
        let (q, c) = divide_linear(&z, x);
        let w = ys[s].mul(inv[s]);
        proof {
            lemma_vanish_remove(xv, s as int);
            lemma_quotient_is_cofactor(fes(z@), fes(q@), xv, s as int, c@);
        }
        let ghost before = fes(out@);
        let mut k: usize = 0;
        while k < n
            invariant
                out.len() == n,
                q.len() == n,
                k <= n,
                before.len() == n,
                forall|j: int| k <= j < n ==> #[trigger] fes(out@)[j] == before[j],
                forall|j: int|
                    0 <= j < k ==> #[trigger] (fes(out@)[j] % modulus()) == (1 * before[j] + w@
                        * fes(q@)[j]) % modulus(),
            decreases n - k,
        {
            let upd = out[k].add(q[k].mul(w));
            proof {
                lemma_add_mod_noop_right(out@[k as int]@, q@[k as int]@ * w@, modulus());
                lemma_mod_twice(out@[k as int]@ + q@[k as int]@ * w@, modulus());
                assert(q@[k as int]@ * w@ == w@ * q@[k as int]@) by (nonlinear_arith);
                assert(fes(out@)[k as int] == before[k as int]);
            }
            let ghost old_out = fes(out@);
            out.set(k, upd);
            assert(fes(out@) == old_out.update(k as int, upd@));
            k = k + 1;
        }
        proof {
            let m = modulus();
            let yv = fes(ys@);
            let vr = vanish(xv.remove(s as int));
            lemma_vanish_monic(xv.remove(s as int));
            Fe::lemma_range(inv@[s as int]);
            assert((denominator(xv, s as int) * inv@[s as int]@) % m == 1) by {
                assert(denominator(xv, s as int) * inv@[s as int]@ == inv@[s as int]@ * denominator(xv, s as int)) by (nonlinear_arith);
            }
            crate::field::lemma_inv_of(denominator(xv, s as int), inv@[s as int]@);
            assert(lagrange_weight(xv, yv, s as int) == w@);
            assert forall|j: int| 0 <= j < n implies #[trigger] fes(out@)[j] == lagrange_sum(xv, yv, (s + 1) as nat, j) % m by {
                Fe::lemma_range(out@[j]);
                lemma_small_mod(fes(out@)[j] as nat, m as nat);
                assert(fes(q@)[j] % m == vr[j] % m);
                assert(coef(vr, j) == vr[j]);
                assert(before[j] == lagrange_sum(xv, yv, s as nat, j) % m);
                lemma_accumulate(lagrange_sum(xv, yv, s as nat, j), w@, fes(q@)[j], vr[j]);
            }
            lemma_interpolation_step(
                before,
                fes(out@),
                fes(q@),
                xv,
                fes(ys@),
                s as int,
                w@,
                inv@[s as int]@,
            );
        }
        s = s + 1;
    }
    proof {
        assert forall|t: int| 0 <= t < xs.len() implies #[trigger] peval(fes(out@), xs@[t]@)
            == ys@[t]@ by {
            assert(xv[t] == xs@[t]@);
        }
        assert(fes(out@) == lagrange(xv, fes(ys@)));
    }
    Ok(out)
}

/// Recover the `b` residual coefficients from `b` distinct non-source coordinates: the
/// interpolant of `(ys[t] - base[t]) / weights[t]` at `xs[t]`.
pub fn residual_from_values(xs: &[Fe], ys: &[Fe], base: &[Fe], weights: &[Fe]) -> (res: Result<Vec<Fe>>)
    ensures
        res is Ok <==> {
            &&& xs.len() == ys.len() && ys.len() == base.len() && base.len() == weights.len()
            &&& forall|t: int| 0 <= t < weights.len() ==> #[trigger] weights@[t]@ != 0
            &&& xs.len() > 0
            &&& distinct(fes(xs@))
            &&& forall|t: int| 0 <= t < xs.len() ==> #[trigger] denominator(fes(xs@), t) != 0
        },
        !(xs.len() == ys.len() && ys.len() == base.len() && base.len() == weights.len()) ==> (res matches Err(
            e,
        ) && e.0@ == "residual lengths"@),
        res matches Ok(out) ==> {
            &&& out.len() == xs.len()
            &&& forall|t: int|
                0 <= t < xs.len() ==> (#[trigger] peval(fes(out@), xs@[t]@) * weights@[t]@) % modulus()
                    == (ys@[t]@ - base@[t]@) % modulus()
        },
{
    require(
        xs.len() == ys.len() && ys.len() == base.len() && base.len() == weights.len(),
        "residual lengths",
    )?;
    let mut values: Vec<Fe> = Vec::new();
    let mut t: usize = 0;
    while t < ys.len()
        invariant
            xs.len() == ys.len() && ys.len() == base.len() && base.len() == weights.len(),
            t <= ys.len(),
            values.len() == t,
            forall|u: int| 0 <= u < t ==> #[trigger] weights@[u]@ != 0,
            forall|u: int|
                0 <= u < t ==> (#[trigger] values@[u]@ * weights@[u]@) % modulus() == (ys@[u]@
                    - base@[u]@) % modulus(),
        decreases ys.len() - t,
    {
        let inv = match weights[t].inverse() {
            Some(inv) => inv,
            None => {
                return Err(Error("residual at source group".to_owned()));
            },
        };
        let v = ys[t].sub(base[t]).mul(inv);
        proof {
            let m = modulus();
            let d = (ys@[t as int]@ + m - base@[t as int]@) % m;
            let w = weights@[t as int]@;
            lemma_mul_mod_noop_general(d * inv@, w, m);
            assert((d * inv@) * w == d * (w * inv@)) by (nonlinear_arith);
            lemma_mul_mod_noop_general(d, w * inv@, m);
            assert(d * 1 == d);
            lemma_mod_twice(ys@[t as int]@ + m - base@[t as int]@, m);
            lemma_mod_add_multiples_vanish(ys@[t as int]@ - base@[t as int]@, m);
            assert(ys@[t as int]@ + m - base@[t as int]@ == m + (ys@[t as int]@ - base@[t as int]@));
        }
        values.push(v);
        t = t + 1;
    }
    let out = interpolate(xs, values.as_slice())?;
    Ok(out)
}

/// Changing coefficient `k` changes the value by the difference times `y^k`.
pub proof fn lemma_psum_update(s: Seq<int>, k: int, v: int, y: int)
    requires
        0 <= k < s.len(),
    ensures
        psum(s.update(k, v), y) == psum(s, y) + (v - s[k]) * pow(y, k as nat),
    decreases k,
{
    let u = s.update(k, v);
    if k == 0 {
        assert(u.drop_first() == s.drop_first());
        lemma_pow0(y);
        assert((v - s[0]) * 1 == v - s[0]);
    } else {
        assert(u.drop_first() == s.drop_first().update(k - 1, v));
        lemma_psum_update(s.drop_first(), k - 1, v, y);
        lemma_pow_adds(y, 1, (k - 1) as nat);
        lemma_pow1(y);
        assert((1 + (k - 1)) as nat == k as nat);
        let a = psum(s.drop_first(), y);
        let dlt = (v - s[k]) * pow(y, (k - 1) as nat);
        assert(y * (a + dlt) == y * a + (v - s[k]) * (y * pow(y, (k - 1) as nat))) by (nonlinear_arith)
            requires
                dlt == (v - s[k]) * pow(y, (k - 1) as nat),
        ;
    }
}

/// Appending `v` adds `v y^len`.
pub proof fn lemma_psum_push(s: Seq<int>, v: int, y: int)
    ensures
        psum(s.push(v), y) == psum(s, y) + v * pow(y, s.len()),
{
    lemma_psum_push_zero(s, y);
    lemma_psum_update(s.push(0), s.len() as int, v, y);
    assert(s.push(0).update(s.len() as int, v) == s.push(v));
}

/// Exact division by a nonempty monic polynomial; rejects a nonzero remainder.
pub fn divide_exact(p: &[Fe], z: &[Fe]) -> (res: Result<Vec<Fe>>)
    ensures
        !(z.len() > 0 && z@[z.len() - 1]@ == 1) ==> (res matches Err(e) && e.0@ == "divisor must be monic"@),
        res matches Err(e) ==> (e.0@ == "divisor must be monic"@ || e.0@ == "nonzero remainder"@),
        z.len() > 0 && z@[z.len() - 1]@ == 1 ==> (res matches Err(e) ==> e.0@ == "nonzero remainder"@),
        z.len() > 0 && z@[z.len() - 1]@ == 1 && p.len() < z.len() ==> (res is Ok <==> forall|t: int|
            0 <= t < p.len() ==> #[trigger] p@[t]@ == 0),
        res matches Ok(q) ==> {
            &&& q.len() == if p.len() < z.len() { 0 } else { p.len() - z.len() + 1 }
            &&& forall|y: int| #[trigger] peval(fes(p@), y) == (psum(fes(q@), y) * psum(fes(z@), y)) % modulus()
        },
{
    let one = Fe::one();
    if !(z.len() > 0 && z[z.len() - 1] == one) {
        if z.len() > 0 {
            let last = z[z.len() - 1];
            proof {
                use_type_invariant(&last);
                use_type_invariant(&one);
                if last@ == one@ {
                    Fe::lemma_eq(last, one);
                }
            }
        }
        return Err(Error("divisor must be monic".to_owned()));
    }
    let ghost pv = fes(p@);
    let ghost zv = fes(z@);
    if p.len() < z.len() {
        let mut t: usize = 0;
        while t < p.len()
            invariant
                t <= p.len(),
                z.len() > 0 && z@[z.len() - 1]@ == 1,
                forall|u: int| 0 <= u < t ==> #[trigger] p@[u]@ == 0,
            decreases p.len() - t,
        {
            if !p[t].is_zero() {
                return Err(Error("nonzero remainder".to_owned()));
            }
            t = t + 1;
        }
        let q: Vec<Fe> = Vec::new();
        proof {
            assert forall|y: int| #[trigger] peval(pv, y) == (psum(fes(q@), y) * psum(zv, y)) % modulus() by {
                crate::polynomial::lemma_psum_zero(pv, y);
                assert(fes(q@).len() == 0);
                assert(0 * psum(zv, y) == 0);
            }
        }
        return Ok(q);
    }
    let d = z.len() - 1;
    let mut rem = crate::field::copy_elements(p);
    let qlen = p.len() - d;
    let mut q: Vec<Fe> = vec![Fe::zero(); qlen];
    let mut i = p.len();
    proof {
        assert forall|y: int| #[trigger] ((psum(fes(rem@), y) + psum(fes(q@), y) * psum(zv, y)) % modulus())
            == psum(pv, y) % modulus() by {
            lemma_psum_zero(fes(q@), y);
            assert(0 * psum(zv, y) == 0);
        }
    }
    while i > d
        invariant
            pv == fes(p@),
            zv == fes(z@),
            z.len() > 0 && z@[z.len() - 1]@ == 1,
            p.len() >= z.len(),
            d + 1 == z.len(),
            d < i <= p.len() || i == d,
            d <= p.len(),
            rem.len() == p.len(),
            q.len() == p.len() - d,
            forall|k: int| 0 <= k < i - d ==> #[trigger] q@[k]@ == 0,
            forall|y: int| #[trigger] ((psum(fes(rem@), y) + psum(fes(q@), y) * psum(zv, y)) % modulus())
                == psum(pv, y) % modulus(),
        decreases i,
    {
        i = i - 1;
        let c = rem[i];
        let ghost q_before = fes(q@);
        q.set(i - d, c);
        proof {
            assert(fes(q@) == q_before.update((i - d) as int, c@));
            assert forall|y: int| #[trigger] psum(fes(q@), y) == psum(q_before, y) + c@ * pow(y, (i - d) as nat) by {
                lemma_psum_update(q_before, (i - d) as int, c@, y);
                assert(q_before[(i - d) as int] == 0);
            }
        }
        let ghost rem_start = fes(rem@);
        let mut j: usize = 0;
        while j <= d
            invariant
                zv == fes(z@),
                d + 1 == z.len(),
                d <= i < rem.len(),
                rem.len() == p.len(),
                j <= d + 1,
                rem_start.len() == rem.len(),
                forall|y: int| #[trigger] (psum(fes(rem@), y) % modulus()) == (psum(rem_start, y) - c@ * pow(
                    y,
                    (i - d) as nat,
                ) * psum(zv.take(j as int), y)) % modulus(),
            decreases d + 1 - j,
        {
            let k = i - d + j;
            let upd = rem[k].sub(c.mul(z[j]));
            let ghost before = fes(rem@);
            rem.set(k, upd);
            proof {
                assert(fes(rem@) == before.update(k as int, upd@));
                assert(zv.take(j + 1) == zv.take(j as int).push(zv[j as int]));
                assert forall|y: int| #[trigger] (psum(fes(rem@), y) % modulus()) == (psum(rem_start, y) - c@
                    * pow(y, (i - d) as nat) * psum(zv.take(j + 1), y)) % modulus() by {
                    let m = modulus();
                    lemma_psum_update(before, k as int, upd@, y);
                    lemma_psum_push(zv.take(j as int), zv[j as int], y);
                    lemma_pow_adds(y, (i - d) as nat, j as nat);
                    assert(((i - d) + j) as nat == k as nat);
                    let pk = pow(y, k as nat);
                    let pid = pow(y, (i - d) as nat);
                    let pj = pow(y, j as nat);
                    let old_k = before[k as int];
                    let prod_cz = c@ * zv[j as int];
                    // upd = old_k - c z_j (mod m)
                    lemma_sub_mul_mod(old_k, c@, zv[j as int]);
                    lemma_mod_twice(old_k - c@ * zv[j as int], m);
                    let ps = psum(before, y);
                    let base = psum(rem_start, y);
                    let zt = psum(zv.take(j as int), y);
                    // psum(new) = ps + (upd - old_k) pk; and upd ≡ old_k - c z_j.
                    lemma_mul_mod_noop_general(upd@ - old_k, pk, m);
                    lemma_sub_mod_noop(upd@, old_k, m);
                    lemma_sub_mod_noop(old_k - c@ * zv[j as int], old_k, m);
                    assert(old_k - c@ * zv[j as int] - old_k == -(c@ * zv[j as int]));
                    lemma_mul_mod_noop_general(-(c@ * zv[j as int]), pk, m);
                    lemma_add_mod_noop(ps, (upd@ - old_k) * pk, m);
                    lemma_add_mod_noop(ps, -(c@ * zv[j as int]) * pk, m);
                    lemma_add_mod_noop(base - c@ * pid * zt, -(c@ * zv[j as int]) * pk, m);
                    lemma_mod_twice(ps, m);
                    assert(-(c@ * zv[j as int]) * pk == -(c@ * pid * (zv[j as int] * pj))) by (nonlinear_arith)
                        requires
                            pk == pid * pj,
                    ;
                    assert(base - c@ * pid * zt + -(c@ * pid * (zv[j as int] * pj)) == base - c@ * pid * (zt
                        + zv[j as int] * pj)) by (nonlinear_arith);
                    assert(zv.take(j as int).len() == j);
                }
            }
            j = j + 1;
        }
        proof {
            assert(zv.take((d + 1) as int) == zv);
            assert forall|y: int| #[trigger] ((psum(fes(rem@), y) + psum(fes(q@), y) * psum(zv, y)) % modulus())
                == psum(pv, y) % modulus() by {
                let m = modulus();
                let pid = pow(y, (i - d) as nat);
                let zs = psum(zv, y);
                let qb = psum(q_before, y);
                let rs = psum(rem_start, y);
                assert(psum(fes(q@), y) == qb + c@ * pid);
                assert((psum(fes(rem@), y) % m) == (rs - c@ * pid * zs) % m);
                lemma_add_mod_noop(psum(fes(rem@), y), psum(fes(q@), y) * zs, m);
                lemma_add_mod_noop(rs - c@ * pid * zs, psum(fes(q@), y) * zs, m);
                assert((qb + c@ * pid) * zs == qb * zs + c@ * pid * zs) by (nonlinear_arith);
                assert(rs - c@ * pid * zs + (qb + c@ * pid) * zs == rs + qb * zs);
            }
        }
    }
    let mut t: usize = 0;
    while t < rem.len()
        invariant
            t <= rem.len(),
            z.len() > 0 && z@[z.len() - 1]@ == 1,
            p.len() >= z.len(),
            forall|u: int| 0 <= u < t ==> #[trigger] rem@[u]@ == 0,
        decreases rem.len() - t,
    {
        if !rem[t].is_zero() {
            return Err(Error("nonzero remainder".to_owned()));
        }
        t = t + 1;
    }
    proof {
        assert forall|y: int| #[trigger] peval(pv, y) == (psum(fes(q@), y) * psum(zv, y)) % modulus() by {
            assert forall|u: int| 0 <= u < fes(rem@).len() implies #[trigger] fes(rem@)[u] == 0 by {
                assert(rem@[u]@ == 0);
            }
            lemma_psum_zero(fes(rem@), y);
            assert(((psum(fes(rem@), y) + psum(fes(q@), y) * psum(zv, y)) % modulus()) == psum(pv, y)
                % modulus());
        }
    }
    Ok(q)
}

} // verus!
