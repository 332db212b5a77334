//! Polynomial products and remainders that switch to FFT convolution and Newton
//! inversion for large operands.
use crate::domain::{fr_fft, fr_ifft, interpolates_subgroup, is_pow2, root_of_unity};
use crate::error::{require, Error, Result};
use crate::field::{copy_elements, modulus, Fe};
use crate::polynomial::{
    coef, cong, fes, lemma_psum_cong, lemma_psum_lincomb, lemma_psum_padded, lemma_psum_push,
    lemma_psum_push_zero, lemma_psum_update, lemma_psum_zero, lemma_sub_mul_mod, padded, peval, psum,
};
use vstd::arithmetic::div_mod::*;
use vstd::arithmetic::power::*;
pub use crate::product_tree::ProductTree;
use vstd::prelude::*;

verus! {

/// `s` has no trailing zero coefficient.
pub open spec fn trimmed(s: Seq<int>) -> bool {
    s.len() == 0 || s[s.len() - 1] % modulus() != 0
}

/// A polynomial whose coefficients from `k` on are zero has the value of its first `k`.
pub proof fn lemma_psum_take_zero_tail(s: Seq<int>, k: int, y: int)
    requires
        0 <= k <= s.len(),
        forall|t: int| k <= t < s.len() ==> #[trigger] s[t] == 0,
    ensures
        psum(s.take(k), y) == psum(s, y),
{
    lemma_psum_padded(s.take(k), s.len(), y);
    assert(padded(s.take(k), s.len()) == s);
}

/// `b` times `c X^s`.
pub open spec fn shifted_scaled(b: Seq<int>, c: int, s: nat) -> Seq<int> {
    Seq::new(s + b.len(), |k: int| if k < s { 0 } else { c * b[k - s] })
}

/// Coefficientwise sum, the shorter operand padded with zeros.
pub open spec fn poly_add(u: Seq<int>, v: Seq<int>) -> Seq<int> {
    Seq::new(if u.len() < v.len() { v.len() } else { u.len() }, |k: int| coef(u, k) + coef(v, k))
}

/// The exact product of `a` and `b`.
pub open spec fn conv(a: Seq<int>, b: Seq<int>) -> Seq<int>
    decreases a.len(),
{
    if a.len() == 0 {
        Seq::empty()
    } else {
        poly_add(conv(a.drop_last(), b), shifted_scaled(b, a.last(), (a.len() - 1) as nat))
    }
}

/// Values add.
pub proof fn lemma_psum_poly_add(u: Seq<int>, v: Seq<int>, y: int)
    ensures
        psum(poly_add(u, v), y) == psum(u, y) + psum(v, y),
{
    let n = poly_add(u, v).len();
    let pu = padded(u, n);
    let pv = padded(v, n);
    assert(poly_add(u, v) == Seq::new(pu.len(), |k: int| 1 * pu[k] + 1 * pv[k]));
    lemma_psum_lincomb(pu, pv, 1, 1, y);
    lemma_psum_padded(u, n, y);
    lemma_psum_padded(v, n, y);
}

/// The value of `b` times `c X^s`.
pub proof fn lemma_psum_shifted_scaled(b: Seq<int>, c: int, s: nat, y: int)
    ensures
        psum(shifted_scaled(b, c, s), y) == c * pow(y, s) * psum(b, y),
    decreases s,
{
    reveal(pow);
    if s == 0 {
        assert(shifted_scaled(b, c, 0) == Seq::new(b.len(), |k: int| c * b[k] + 0 * b[k]));
        lemma_psum_lincomb(b, b, c, 0, y);
        assert(c * pow(y, 0) == c);
    } else {
        let t = shifted_scaled(b, c, s);
        assert(t.drop_first() == shifted_scaled(b, c, (s - 1) as nat));
        lemma_psum_shifted_scaled(b, c, (s - 1) as nat, y);
        assert(t[0] == 0);
        assert(psum(t, y) == 0 + y * psum(t.drop_first(), y));
        assert(y * (c * pow(y, (s - 1) as nat) * psum(b, y)) == c * (y * pow(y, (s - 1) as nat))
            * psum(b, y)) by (nonlinear_arith);
    }
}

/// The exact product has the product's values and `len(a) + len(b) - 1` coefficients.
pub proof fn lemma_conv(a: Seq<int>, b: Seq<int>, y: int)
    ensures
        psum(conv(a, b), y) == psum(a, y) * psum(b, y),
        a.len() > 0 && b.len() > 0 ==> conv(a, b).len() == a.len() + b.len() - 1,
        a.len() == 0 ==> conv(a, b).len() == 0,
    decreases a.len(),
{
    if a.len() > 0 {
        let rest = a.drop_last();
        lemma_conv(rest, b, y);
        lemma_psum_poly_add(conv(rest, b), shifted_scaled(b, a.last(), (a.len() - 1) as nat), y);
        lemma_psum_shifted_scaled(b, a.last(), (a.len() - 1) as nat, y);
        assert(rest.push(a.last()) == a);
        lemma_psum_push(rest, a.last(), y);
        assert(psum(rest, y) * psum(b, y) + a.last() * pow(y, rest.len()) * psum(b, y) == (psum(
            rest,
            y,
        ) + a.last() * pow(y, rest.len())) * psum(b, y)) by (nonlinear_arith);
    } else {
        assert(psum(a, y) == 0);
        assert(0 * psum(b, y) == 0);
    }
}

/// The length of `s` without its trailing zeros.
pub open spec fn significant(s: Seq<int>) -> nat
    decreases s.len(),
{
    if s.len() == 0 {
        0
    } else if s[s.len() - 1] % modulus() == 0 {
        significant(s.drop_last())
    } else {
        s.len()
    }
}

/// A trimmed prefix followed by zeros is the significant part.
proof fn lemma_significant(s: Seq<int>, k: int)
    requires
        0 <= k <= s.len(),
        trimmed(s.take(k)),
        forall|t: int| k <= t < s.len() ==> #[trigger] s[t] % modulus() == 0,
    ensures
        significant(s) == k,
    decreases s.len() - k,
{
    if s.len() > k {
        assert(s.drop_last().take(k) == s.take(k));
        lemma_significant(s.drop_last(), k);
    } else {
        assert(s.take(k) == s);
    }
}

/// Drop trailing zero coefficients.
pub(crate) fn trim(p: Vec<Fe>) -> (r: Vec<Fe>)
    ensures
        r.len() <= p.len(),
        r.len() == significant(fes(p@)),
        r@ == p@.take(r.len() as int),
        trimmed(fes(r@)),
        forall|t: int| r.len() <= t < p.len() ==> #[trigger] p@[t]@ == 0,
        forall|y: int| #[trigger] psum(fes(r@), y) == psum(fes(p@), y),
{
    let mut p = p;
    let ghost start = p@;
    while p.len() > 0 && p[p.len() - 1].is_zero()
        invariant
            p.len() <= start.len(),
            p@ == start.take(p.len() as int),
            forall|t: int| p.len() <= t < start.len() ==> #[trigger] start[t]@ == 0,
        decreases p.len(),
    {
        p.pop();
    }
    proof {
        if p.len() > 0 {
            Fe::lemma_range(p@[p.len() - 1]);
            lemma_small_mod(p@[p.len() - 1]@ as nat, modulus() as nat);
        }
        assert forall|y: int| #[trigger] psum(fes(p@), y) == psum(fes(start), y) by {
            assert(fes(p@) == fes(start).take(p.len() as int));
            lemma_psum_take_zero_tail(fes(start), p.len() as int, y);
        }
        assert(fes(p@) == fes(start).take(p.len() as int));
        assert forall|t: int| p.len() <= t < start.len() implies #[trigger] fes(start)[t] % modulus() == 0 by {
            assert(start[t]@ == 0);
        }
        lemma_significant(fes(start), p.len() as int);
    }
    p
}

/// `s.take(k + 1)` adds the term `s[k] y^k`.
proof fn lemma_psum_take_step(s: Seq<int>, k: int, y: int)
    requires
        0 <= k < s.len(),
    ensures
        psum(s.take(k + 1), y) == psum(s.take(k), y) + s[k] * pow(y, k as nat),
{
    assert(s.take(k).push(s[k]) == s.take(k + 1));
    lemma_psum_push(s.take(k), s[k], y);
}

/// Schoolbook convolution.
fn schoolbook(a: &[Fe], b: &[Fe]) -> (c: Vec<Fe>)
    requires
        a.len() > 0,
        b.len() > 0,
        a.len() + b.len() - 1 <= 4194305,
    ensures
        c.len() == a.len() + b.len() - 1,
        forall|y: int| #[trigger] peval(fes(c@), y) == (psum(fes(a@), y) * psum(fes(b@), y)) % modulus(),
{
    let ghost p = modulus();
    let ghost av = fes(a@);
    let ghost bv = fes(b@);
    let len = a.len() + b.len() - 1;
    let mut c: Vec<Fe> = vec![Fe::zero(); len];
    let ghost mut e: Seq<int> = Seq::new(len as nat, |k: int| 0int);
    proof {
        assert forall|k: int| 0 <= k < len implies #[trigger] (fes(c@)[k] % p) == e[k] % p by {
            assert(c@[k]@ == 0);
        }
        assert forall|y: int| #[trigger] psum(e, y) == psum(av.take(0), y) * psum(bv, y) by {
            lemma_psum_zero(e, y);
            assert(av.take(0).len() == 0);
            assert(psum(av.take(0), y) == 0);
            assert(0 * psum(bv, y) == 0);
        }
    }
    let mut i: usize = 0;
    while i < a.len()
        invariant
            p == modulus(),
            av == fes(a@),
            bv == fes(b@),
            len == a.len() + b.len() - 1,
            c.len() == len,
            e.len() == len,
            i <= a.len(),
            cong(fes(c@), e),
            forall|y: int| #[trigger] psum(e, y) == psum(av.take(i as int), y) * psum(bv, y),
        decreases a.len() - i,
    {
        proof {
            assert forall|y: int| #[trigger] psum(e, y) == psum(av.take(i as int), y) * psum(bv, y)
                + av[i as int] * pow(y, i as nat) * psum(bv.take(0), y) by {
                assert(bv.take(0).len() == 0);
                assert(psum(bv.take(0), y) == 0);
                assert(av[i as int] * pow(y, i as nat) * 0 == 0) by (nonlinear_arith);
            }
        }
        let mut j: usize = 0;
        while j < b.len()
            invariant
                p == modulus(),
                av == fes(a@),
                bv == fes(b@),
                len == a.len() + b.len() - 1,
                c.len() == len,
                e.len() == len,
                i < a.len(),
                j <= b.len(),
                cong(fes(c@), e),
                forall|y: int| #[trigger] psum(e, y) == psum(av.take(i as int), y) * psum(bv, y)
                    + av[i as int] * pow(y, i as nat) * psum(bv.take(j as int), y),
            decreases b.len() - j,
        {
            let k = i + j;
            let term = a[i].mul(b[j]);
            let v = c[k].add(term);
            proof {
                let ab = av[i as int] * bv[j as int];
                let e2 = e.update(k as int, e[k as int] + ab);
                assert(fes(c@)[k as int] % p == e[k as int] % p);
                lemma_add_mod_noop(c@[k as int]@, ab, p);
                lemma_add_mod_noop(e[k as int], ab, p);
                lemma_mod_twice(ab, p);
                Fe::lemma_range(c@[k as int]);
                lemma_small_mod(c@[k as int]@ as nat, p as nat);
                lemma_add_mod_noop(c@[k as int]@, term@, p);
                lemma_small_mod(term@ as nat, p as nat);
                Fe::lemma_range(term);
                lemma_small_mod(v@ as nat, p as nat);
                Fe::lemma_range(v);
                assert(v@ % p == e2[k as int] % p);
                assert(e2[k as int] == e[k as int] + ab);
                assert forall|y: int| #[trigger] psum(e2, y) == psum(av.take(i as int), y) * psum(bv, y)
                    + av[i as int] * pow(y, i as nat) * psum(bv.take(j + 1), y) by {
                    lemma_psum_update(e, k as int, e[k as int] + ab, y);
                    lemma_psum_take_step(bv, j as int, y);
                    lemma_pow_adds(y, i as nat, j as nat);
                    let pi = pow(y, i as nat);
                    let pj = pow(y, j as nat);
                    let q = psum(bv.take(j as int), y);
                    assert(av[i as int] * pi * (q + bv[j as int] * pj) == av[i as int] * pi * q + ab * (pi * pj))
                        by (nonlinear_arith)
                        requires
                            ab == av[i as int] * bv[j as int],
                    ;
                    assert((e[k as int] + ab - e[k as int]) == ab);
                    assert((i + j) as nat == (i as nat + j as nat));
                }
                e = e2;
            }
            let ghost before_c = fes(c@);
            c.set(k, v);
            proof {
                assert(c@[k as int] == v);
                assert(fes(c@)[k as int] == v@);
                assert forall|t: int| 0 <= t < len implies #[trigger] (fes(c@)[t] % p) == e[t] % p by {
                    if t == k {
                        assert(fes(c@)[t] == v@);
                    } else {
                        assert(fes(c@)[t] == before_c[t]);
                        assert(before_c[t] % modulus() == e[t] % modulus());
                    }
                }
            }
            j = j + 1;
        }
        proof {
            assert(bv.take(b.len() as int) == bv);
            assert forall|y: int| #[trigger] psum(e, y) == psum(av.take(i + 1), y) * psum(bv, y) by {
                lemma_psum_take_step(av, i as int, y);
                let s = psum(av.take(i as int), y);
                let t = av[i as int] * pow(y, i as nat);
                assert(s * psum(bv, y) + t * psum(bv, y) == (s + t) * psum(bv, y)) by (nonlinear_arith);
            }
        }
        i = i + 1;
    }
    proof {
        assert(av.take(a.len() as int) == av);
        assert forall|y: int| #[trigger] peval(fes(c@), y) == (psum(av, y) * psum(bv, y)) % p by {
            lemma_psum_cong(fes(c@), e, y, y);
        }
    }
    c
}

/// Convolution by one FFT of each operand on the smallest power-of-two subgroup that
/// holds the product, a pointwise product and one inverse FFT.
fn fft_product(a: &[Fe], b: &[Fe]) -> (c: Vec<Fe>)
    requires
        a.len() > 0,
        b.len() > 0,
        a.len() + b.len() - 1 <= 4194305,
    ensures
        c.len() == a.len() + b.len() - 1,
        forall|y: int| #[trigger] peval(fes(c@), y) == (psum(fes(a@), y) * psum(fes(b@), y)) % modulus(),
{
    let ghost p = modulus();
    let ghost av = fes(a@);
    let ghost bv = fes(b@);
    let len = a.len() + b.len() - 1;
    let mut size: usize = 1;
    while size < len
        invariant
            len <= 4194305,
            1 <= size,
            size < 2 * len,
            is_pow2(size as nat),
        decreases 2 * len - size,
    {
        assert(is_pow2((2 * size) as nat) == is_pow2(size as nat));
        size = size * 2;
    }
    let x = fr_fft(size, a);
    let z = fr_fft(size, b);
    let mut w: Vec<Fe> = Vec::new();
    let mut i: usize = 0;
    while i < size
        invariant
            x.len() == size,
            z.len() == size,
            i <= size,
            w.len() == i,
            forall|t: int| 0 <= t < i ==> #[trigger] w@[t]@ == (x@[t]@ * z@[t]@) % modulus(),
        decreases size - i,
    {
        w.push(x[i].mul(z[i]));
        i = i + 1;
    }
    let ghost product = conv(av, bv);
    proof {
        assert forall|t: int| 0 <= t < size implies #[trigger] peval(product, pow(root_of_unity(size as nat), t as nat) % p) == fes(w@)[t] by {
            let e = pow(root_of_unity(size as nat), t as nat) % p;
            lemma_conv(av, bv, e);
            lemma_mul_mod_noop_general(psum(av, e), psum(bv, e), p);
        }
        lemma_conv(av, bv, 0);
        assert(interpolates_subgroup(product, fes(w@), size as nat));
    }
    let r = fr_ifft(size, &w);
    let mut c: Vec<Fe> = Vec::new();
    let mut t: usize = 0;
    while t < len
        invariant
            len <= size,
            r.len() == size,
            t <= len,
            c@ == r@.take(t as int),
        decreases len - t,
    {
        c.push(r[t]);
        t = t + 1;
        assert(c@ == r@.take(t as int));
    }
    proof {
        assert(cong(fes(r@), padded(product, size as nat)));
        assert(cong(fes(c@), product)) by {
            assert forall|k: int| 0 <= k < len implies #[trigger] (fes(c@)[k] % p) == product[k] % p by {
                assert(fes(c@)[k] == fes(r@)[k]);
                assert(padded(product, size as nat)[k] == product[k]);
            }
        }
        assert forall|y: int| #[trigger] peval(fes(c@), y) == (psum(av, y) * psum(bv, y)) % p by {
            lemma_psum_cong(fes(c@), product, y, y);
            lemma_conv(av, bv, y);
        }
    }
    c
}

/// The product of two polynomials, with trailing zeros dropped; the product of an empty
/// operand is empty.
pub fn multiply(a: &[Fe], b: &[Fe]) -> (res: Result<Vec<Fe>>)
    ensures
        a.len() == 0 || b.len() == 0 ==> (res matches Ok(c) && c.len() == 0),
        res is Err <==> (a.len() > 0 && b.len() > 0 && a.len() + b.len() - 1 > 4194305),
        res matches Err(e) ==> (e.0@ == "convolution size overflow"@ || e.0@ == "convolution size limit"@),
        a.len() > 0 && b.len() > 0 && a.len() + b.len() <= usize::MAX ==> (res matches Err(e)
            ==> e.0@ == "convolution size limit"@),
        res matches Ok(c) ==> {
            &&& trimmed(fes(c@))
            &&& (a.len() > 0 && b.len() > 0 ==> c.len() <= a.len() + b.len() - 1)
            &&& forall|y: int| #[trigger] peval(fes(c@), y) == (psum(fes(a@), y) * psum(fes(b@), y)) % modulus()
        },
{
    if a.len() == 0 || b.len() == 0 {
        let c: Vec<Fe> = Vec::new();
        proof {
            assert forall|y: int| #[trigger] peval(fes(c@), y) == (psum(fes(a@), y) * psum(fes(b@), y)) % modulus() by {
                assert(fes(c@).len() == 0);
                if a.len() == 0 {
                    assert(fes(a@).len() == 0);
                    assert(0 * psum(fes(b@), y) == 0);
                } else {
                    assert(fes(b@).len() == 0);
                    assert(psum(fes(a@), y) * 0 == 0);
                }
                lemma_small_mod(0, modulus() as nat);
            }
        }
        return Ok(c);
    }
    let len = match a.len().checked_add(b.len()) {
        Some(n) => n - 1,
        None => {
            return Err(Error("convolution size overflow".to_owned()));
        },
    };
    require(len <= 4_194_305, "convolution size limit")?;
    let small = if a.len() < b.len() {
        a.len()
    } else {
        b.len()
    };
    let c = if small <= 8 || len <= 128 {
        schoolbook(a, b)
    } else {
        fft_product(a, b)
    };
    let r = trim(c);
    proof {
        assert forall|y: int| #[trigger] peval(fes(r@), y) == (psum(fes(a@), y) * psum(fes(b@), y)) % modulus() by {
            assert(psum(fes(r@), y) == psum(fes(c@), y));
            assert(peval(fes(c@), y) == (psum(fes(a@), y) * psum(fes(b@), y)) % modulus());
        }
    }
    Ok(r)
}

/// The first `n` entries of `s`, padded with zeros to `n`.
pub(crate) fn resized(s: &[Fe], n: usize) -> (r: Vec<Fe>)
    ensures
        r.len() == n,
        forall|k: int| 0 <= k < n && k < s.len() ==> #[trigger] r@[k] == s@[k],
        forall|k: int| s.len() <= k < n ==> #[trigger] r@[k]@ == 0,
{
    let mut r: Vec<Fe> = Vec::new();
    let mut k: usize = 0;
    while k < n
        invariant
            k <= n,
            r.len() == k,
            forall|t: int| 0 <= t < k && t < s.len() ==> #[trigger] r@[t] == s@[t],
            forall|t: int| s.len() <= t < k ==> #[trigger] r@[t]@ == 0,
        decreases n - k,
    {
        if k < s.len() {
            r.push(s[k]);
        } else {
            r.push(Fe::zero());
        }
        k = k + 1;
    }
    r
}

/// A power-series inverse of `p` to `n` terms by Newton iteration, doubling the
/// precision each step.
fn inverse_series(p: &[Fe], n: usize) -> (res: Result<Vec<Fe>>)
    ensures
        (res matches Err(e) && e.0@ == "noninvertible series"@) <==> (p.len() == 0 || p@[0]@ == 0),
        res matches Err(e) ==> (e.0@ == "noninvertible series"@ || e.0@ == "convolution size limit"@
            || e.0@ == "convolution size overflow"@),
        res matches Ok(g) ==> g.len() == if n == 0 {
            1
        } else {
            n
        },
{
    proof {
        lemma_series_messages();
    }
    let first = if p.len() > 0 {
        p[0].inverse()
    } else {
        None
    };
    let start = match first {
        Some(x) => x,
        None => {
            return Err(Error("noninvertible series".to_owned()));
        },
    };
    let mut g: Vec<Fe> = vec![start];
    while g.len() < n
        invariant
            1 <= g.len(),
            g.len() <= n || n == 0,
            n == 0 ==> g.len() == 1,
            p.len() > 0,
            p@[0]@ != 0,
            "noninvertible series"@ != "convolution size limit"@,
            "noninvertible series"@ != "convolution size overflow"@,
        decreases n - g.len(),
    {
        let size = if g.len() > n - g.len() {
            n
        } else {
            2 * g.len()
        };
        let take = if p.len() < size {
            p.len()
        } else {
            size
        };
        let head = resized(p, take);
        let product = multiply(&head, &g)?;
        let mut fg = resized(&product, size);
        let mut k: usize = 0;
        while k < fg.len()
            invariant
                k <= fg.len(),
                fg.len() == size,
            decreases fg.len() - k,
        {
            let v = fg[k].neg();
            fg.set(k, v);
            k = k + 1;
        }
        let lead = fg[0].add(Fe::from_u64(2));
        fg.set(0, lead);
        let next = multiply(&g, &fg)?;
        g = resized(&next, size);
    }
    Ok(g)
}

/// `a = q b + r` as values everywhere.
pub open spec fn division_identity(a: Seq<int>, q: Seq<int>, b: Seq<int>, r: Seq<int>) -> bool {
    forall|y: int| #[trigger] peval(a, y) == (psum(q, y) * psum(b, y) + psum(r, y)) % modulus()
}

/// Long division by a trimmed divisor, one leading coefficient at a time.
fn schoolbook_remainder(a: &Vec<Fe>, b: &Vec<Fe>) -> (r: Vec<Fe>)
    requires
        b.len() >= 1,
        a.len() >= b.len(),
        trimmed(fes(b@)),
    ensures
        trimmed(fes(r@)),
        r.len() < b.len(),
        exists|q: Seq<int>| #[trigger] division_identity(fes(a@), q, fes(b@), fes(r@)),
{
    let ghost p = modulus();
    let ghost av = fes(a@);
    let ghost bv = fes(b@);
    let blen = b.len();
    let last = b[blen - 1];
    proof {
        Fe::lemma_range(last);
        lemma_small_mod(last@ as nat, p as nat);
    }
    let inv = match last.inverse() {
        Some(x) => x,
        None => {
            return Vec::new();
        },
    };
    let mut rem = copy_elements(a);
    let ghost mut e: Seq<int> = av;
    let ghost mut q: Seq<int> = Seq::new((a.len() - blen + 1) as nat, |k: int| 0int);
    proof {
        assert forall|k: int| 0 <= k < rem.len() implies #[trigger] (fes(rem@)[k] % p) == e[k] % p by {}
        assert forall|y: int| #[trigger] psum(av, y) == psum(q, y) * psum(bv, y) + psum(e, y) by {
            lemma_psum_zero(q, y);
            assert(0 * psum(bv, y) == 0);
        }
    }
    let mut i: usize = rem.len();
    while i > blen - 1
        invariant
            p == modulus(),
            av == fes(a@),
            bv == fes(b@),
            blen == b.len(),
            blen >= 1,
            rem.len() == a.len(),
            e.len() == a.len(),
            q.len() == a.len() - blen + 1,
            blen - 1 <= i <= rem.len(),
            (last@ * inv@) % p == 1,
            last == b@[blen - 1],
            cong(fes(rem@), e),
            forall|y: int| #[trigger] psum(av, y) == psum(q, y) * psum(bv, y) + psum(e, y),
            forall|k: int| i <= k < rem.len() ==> #[trigger] rem@[k]@ == 0,
        decreases i,
    {
        i = i - 1;
        let s = i + 1 - blen;
        let c = rem[i].mul(inv);
        let ghost e0 = e;
        let ghost r0 = rem@[i as int]@;
        proof {
            Fe::lemma_range(rem@[i as int]);
            assert forall|y: int| #[trigger] psum(e, y) == psum(e0, y) - c@ * pow(y, s as nat) * psum(bv.take(0), y) by {
                assert(bv.take(0).len() == 0);
                assert(psum(bv.take(0), y) == 0);
                assert(c@ * pow(y, s as nat) * 0 == 0) by (nonlinear_arith);
            }
        }
        let mut j: usize = 0;
        while j < blen
            invariant
                p == modulus(),
                bv == fes(b@),
                blen == b.len(),
                rem.len() == a.len(),
                e.len() == a.len(),
                e0.len() == a.len(),
                s + blen == i + 1,
                i < rem.len(),
                j <= blen,
                cong(fes(rem@), e),
                j < blen ==> rem@[i as int]@ == r0,
                forall|k: int| i < k < rem.len() ==> #[trigger] rem@[k]@ == 0,
                forall|y: int| #[trigger] psum(e, y) == psum(e0, y) - c@ * pow(y, s as nat) * psum(bv.take(j as int), y),
                j == blen ==> rem@[i as int]@ == (r0 + p - (c@ * bv[blen - 1]) % p) % p,
            decreases blen - j,
        {
            let k = s + j;
            let old_value = rem[k];
            let v = old_value.sub(c.mul(b[j]));
            proof {
                let d = c@ * bv[j as int];
                let e2 = e.update(k as int, e[k as int] - d);
                lemma_sub_mul_mod(old_value@, c@, b@[j as int]@);
                assert(fes(rem@)[k as int] % p == e[k as int] % p);
                lemma_sub_mod_noop(old_value@, d, p);
                lemma_sub_mod_noop(e[k as int], d, p);
                Fe::lemma_range(old_value);
                lemma_small_mod(old_value@ as nat, p as nat);
                assert(v@ == (old_value@ - d) % p);
                assert(v@ % p == e2[k as int] % p) by {
                    lemma_mod_twice(old_value@ - d, p);
                }
                assert forall|y: int| #[trigger] psum(e2, y) == psum(e0, y) - c@ * pow(y, s as nat) * psum(bv.take(j + 1), y) by {
                    assert(psum(e, y) == psum(e0, y) - c@ * pow(y, s as nat) * psum(bv.take(j as int), y));
                    lemma_psum_update(e, k as int, e[k as int] - d, y);
                    lemma_psum_take_step(bv, j as int, y);
                    lemma_pow_adds(y, s as nat, j as nat);
                    let ps = pow(y, s as nat);
                    let pj = pow(y, j as nat);
                    let t = psum(bv.take(j as int), y);
                    assert(c@ * ps * (t + bv[j as int] * pj) == c@ * ps * t + d * (ps * pj)) by (nonlinear_arith)
                        requires
                            d == c@ * bv[j as int],
                    ;
                    assert((s + j) as nat == (s as nat + j as nat));
                    assert(pow(y, k as nat) == ps * pj);
                    let ek = e[k as int];
                    let pk = pow(y, k as nat);
                    assert(((ek - d) - ek) * pk == -(d * pk)) by (nonlinear_arith);
                    assert(psum(e2, y) == psum(e, y) - d * pow(y, k as nat));
                }
                e = e2;
            }
            let ghost before = fes(rem@);
            rem.set(k, v);
            proof {
                assert forall|t: int| 0 <= t < rem.len() implies #[trigger] (fes(rem@)[t] % p) == e[t] % p by {
                    if t == k {
                        assert(fes(rem@)[t] == v@);
                    } else {
                        assert(fes(rem@)[t] == before[t]);
                        assert(before[t] % modulus() == e[t] % modulus());
                    }
                }
            }
            j = j + 1;
        }
        proof {
            // The leading coefficient cancels: `r0 - (r0 inv mod p) last = 0` modulo the prime.
            let cl = c@ * bv[blen - 1];
            lemma_mul_mod_noop_left(r0 * inv@, bv[blen - 1], p);
            assert(r0 * inv@ * bv[blen - 1] == r0 * (last@ * inv@)) by (nonlinear_arith)
                requires
                    bv[blen - 1] == last@,
            ;
            lemma_mul_mod_noop_right(r0, last@ * inv@, p);
            assert(r0 * 1 == r0);
            lemma_small_mod(r0 as nat, p as nat);
            assert(cl % p == r0);
            lemma_mod_self_0(p);
            assert(rem@[i as int]@ == 0);
            assert(bv.take(blen as int) == bv);
            let q2 = q.update(s as int, q[s as int] + c@);
            assert forall|y: int| #[trigger] psum(av, y) == psum(q2, y) * psum(bv, y) + psum(e, y) by {
                lemma_psum_update(q, s as int, q[s as int] + c@, y);
                let ps = pow(y, s as nat);
                assert((psum(q, y) + c@ * ps) * psum(bv, y) + (psum(e0, y) - c@ * ps * psum(bv, y)) == psum(q, y) * psum(bv, y) + psum(e0, y)) by (nonlinear_arith);
                assert((q[s as int] + c@ - q[s as int]) == c@);
            }
            q = q2;
        }
    }
    let ghost full = fes(rem@);
    let mut out: Vec<Fe> = Vec::new();
    let mut t: usize = 0;
    while t < blen - 1
        invariant
            blen - 1 <= rem.len(),
            t <= blen - 1,
            out@ == rem@.take(t as int),
        decreases blen - 1 - t,
    {
        out.push(rem[t]);
        t = t + 1;
        assert(out@ == rem@.take(t as int));
    }
    let r = trim(out);
    proof {
        assert(fes(out@) == full.take((blen - 1) as int));
        assert(division_identity(av, q, bv, fes(r@))) by {
            assert forall|y: int| #[trigger] peval(av, y) == (psum(q, y) * psum(bv, y) + psum(fes(r@), y)) % p by {
                lemma_psum_take_zero_tail(full, (blen - 1) as int, y);
                lemma_psum_cong(full, e, y, y);
                lemma_add_mod_noop(psum(q, y) * psum(bv, y), psum(e, y), p);
                lemma_add_mod_noop(psum(q, y) * psum(bv, y), psum(fes(r@), y), p);
            }
        }
    }
    r
}

/// Division through the reversed divisor's series inverse: the quotient's coefficients
/// come from one product, and the remainder is checked to have the divisor's lower degree.
fn fast_remainder(a: &Vec<Fe>, b: &Vec<Fe>) -> (res: Result<Vec<Fe>>)
    requires
        b.len() >= 1,
        a.len() >= b.len(),
        trimmed(fes(b@)),
    ensures
        res matches Err(e) ==> (e.0@ == "noninvertible series"@ || e.0@ == "convolution size limit"@
            || e.0@ == "convolution size overflow"@ || e.0@ == "fast division identity"@),
        res matches Ok(r) ==> {
            &&& trimmed(fes(r@))
            &&& r.len() < b.len()
            &&& exists|q: Seq<int>| #[trigger] division_identity(fes(a@), q, fes(b@), fes(r@))
        },
{
    let ghost p = modulus();
    proof {
        lemma_remainder_messages();
    }
    let alen = a.len();
    let blen = b.len();
    let qlen = alen - blen + 1;
    let mut ar: Vec<Fe> = Vec::new();
    let mut k: usize = 0;
    while k < qlen
        invariant
            qlen <= alen,
            alen == a.len(),
            k <= qlen,
            ar.len() == k,
        decreases qlen - k,
    {
        ar.push(a[alen - 1 - k]);
        k = k + 1;
    }
    let count = if qlen < blen {
        qlen
    } else {
        blen
    };
    let mut br: Vec<Fe> = Vec::new();
    let mut k: usize = 0;
    while k < count
        invariant
            count <= blen,
            blen == b.len(),
            k <= count,
            br.len() == k,
        decreases count - k,
    {
        br.push(b[blen - 1 - k]);
        k = k + 1;
    }
    let inverse = inverse_series(&br, qlen)?;
    let reversed = multiply(&ar, &inverse)?;
    let cut = resized(&reversed, qlen);
    let mut q: Vec<Fe> = Vec::new();
    let mut k: usize = 0;
    while k < qlen
        invariant
            cut.len() == qlen,
            k <= qlen,
            q.len() == k,
        decreases qlen - k,
    {
        q.push(cut[qlen - 1 - k]);
        k = k + 1;
    }
    let qb = multiply(&q, b)?;
    let ghost av = fes(a@);
    let ghost qv = fes(q@);
    let ghost bv = fes(b@);
    let ghost qbv = fes(qb@);
    assert(qb.len() <= alen);
    let mut rem = copy_elements(a);
    let mut k: usize = 0;
    while k < qb.len()
        invariant
            qb.len() <= alen,
            alen == a.len(),
            rem.len() == alen,
            av == fes(a@),
            qbv == fes(qb@),
            k <= qb.len(),
            forall|t: int| 0 <= t < k ==> #[trigger] (fes(rem@)[t] % modulus()) == (av[t] - qbv[t]) % modulus(),
            forall|t: int| k <= t < alen ==> #[trigger] rem@[t] == a@[t],
        decreases qb.len() - k,
    {
        let v = rem[k].sub(qb[k]);
        proof {
            Fe::lemma_range(qb@[k as int]);
            assert(rem@[k as int] == a@[k as int]);
            lemma_mod_add_multiples_vanish(av[k as int] - qbv[k as int], modulus());
            assert(av[k as int] + modulus() - qbv[k as int] == modulus() + (av[k as int] - qbv[k as int]));
            lemma_mod_twice(av[k as int] - qbv[k as int], modulus());
            assert(v@ % modulus() == (av[k as int] - qbv[k as int]) % modulus()) by {
                lemma_mod_twice(av[k as int] + modulus() - qbv[k as int], modulus());
            }
        }
        let ghost before = fes(rem@);
        rem.set(k, v);
        proof {
            assert forall|t: int| 0 <= t < k + 1 implies #[trigger] (fes(rem@)[t] % modulus()) == (av[t] - qbv[t]) % modulus() by {
                if t < k {
                    assert(fes(rem@)[t] == before[t]);
                } else {
                    assert(fes(rem@)[t] == v@);
                }
            }
        }
        k = k + 1;
    }
    let mut t: usize = blen - 1;
    while t < alen
        invariant
            blen - 1 <= t <= alen,
            rem.len() == alen,
            forall|u: int| blen - 1 <= u < t ==> #[trigger] rem@[u]@ == 0,
            "fast division identity"@ != "noninvertible series"@,
        decreases alen - t,
    {
        if !rem[t].is_zero() {
            return Err(Error("fast division identity".to_owned()));
        }
        t = t + 1;
    }
    let ghost full = fes(rem@);
    let out = resized(&rem, blen - 1);
    let r = trim(out);
    proof {
        // `rem` is `a - q b` coefficientwise, so its value is that of `a - q b`.
        let e = Seq::new(alen as nat, |u: int| 1 * av[u] + (-1) * padded(qbv, alen as nat)[u]);
        assert(cong(full, e)) by {
            assert forall|u: int| 0 <= u < alen implies #[trigger] (full[u] % p) == e[u] % p by {
                if u < qb.len() {
                    assert(padded(qbv, alen as nat)[u] == qbv[u]);
                } else {
                    assert(padded(qbv, alen as nat)[u] == 0);
                    assert(rem@[u] == a@[u]);
                }
            }
        }
        assert(fes(out@) == full.take((blen - 1) as int));
        assert forall|y: int| #[trigger] peval(av, y) == (psum(qv, y) * psum(bv, y) + psum(fes(r@), y)) % p by {
            lemma_psum_lincomb(av, padded(qbv, alen as nat), 1, -1, y);
            lemma_psum_padded(qbv, alen as nat, y);
            lemma_psum_cong(full, e, y, y);
            assert forall|u: int| blen - 1 <= u < full.len() implies #[trigger] full[u] == 0 by {
                assert(rem@[u]@ == 0);
            }
            lemma_psum_take_zero_tail(full, (blen - 1) as int, y);
            assert(peval(qbv, y) == (psum(qv, y) * psum(bv, y)) % p);
            let s = psum(qv, y) * psum(bv, y);
            lemma_sub_mod_noop_right(psum(av, y), psum(qbv, y), p);
            lemma_sub_mod_noop_right(psum(av, y), s, p);
            lemma_add_mod_noop_right(s, psum(fes(r@), y), p);
            lemma_add_mod_noop_right(s, psum(av, y) - s, p);
        }
        assert(division_identity(av, qv, bv, fes(r@)));
        assert(division_identity(fes(a@), qv, fes(b@), fes(r@)));
        assert(r.len() <= out.len());
    }
    Ok(r)
}

/// The remainder of `a` modulo `b`, with trailing zeros dropped: fewer coefficients than
/// `b` has up to its last nonzero one, and `a - r` a multiple of `b`.
pub fn remainder(a: &[Fe], b: &[Fe]) -> (res: Result<Vec<Fe>>)
    ensures
        (res matches Err(e) && e.0@ == "zero divisor"@) <==> significant(fes(b@)) == 0,
        res matches Err(e) ==> (e.0@ == "zero divisor"@ || e.0@ == "noninvertible series"@ || e.0@
            == "convolution size limit"@ || e.0@ == "convolution size overflow"@ || e.0@
            == "fast division identity"@),
        res matches Ok(r) ==> {
            &&& trimmed(fes(r@))
            &&& r.len() < significant(fes(b@))
            &&& exists|q: Seq<int>| #[trigger] division_identity(fes(a@), q, fes(b@), fes(r@))
        },
{
    proof {
        lemma_remainder_messages();
    }
    let ca = copy_elements(a);
    let cb = copy_elements(b);
    let ta = trim(ca);
    let tb = trim(cb);
    require(tb.len() > 0, "zero divisor")?;
    let res = if ta.len() < tb.len() {
        proof {
            assert(division_identity(fes(ta@), Seq::<int>::empty(), fes(tb@), fes(ta@))) by {
                assert forall|y: int| #[trigger] peval(fes(ta@), y) == (psum(Seq::<int>::empty(), y) * psum(fes(tb@), y) + psum(fes(ta@), y)) % modulus() by {
                    assert(psum(Seq::<int>::empty(), y) == 0);
                    assert(0 * psum(fes(tb@), y) == 0);
                }
            }
        }
        Ok(ta)
    } else {
        let qlen = ta.len() - tb.len() + 1;
        if tb.len() <= 65 || qlen <= 32 {
            Ok(schoolbook_remainder(&ta, &tb))
        } else {
            fast_remainder(&ta, &tb)
        }
    };
    match res {
        Ok(r) => {
            proof {
                let q = choose|q: Seq<int>| #[trigger] division_identity(fes(ta@), q, fes(tb@), fes(r@));
                assert(division_identity(fes(a@), q, fes(b@), fes(r@))) by {
                    assert forall|y: int| #[trigger] peval(fes(a@), y) == (psum(q, y) * psum(fes(b@), y) + psum(fes(r@), y)) % modulus() by {
                        assert(peval(fes(ta@), y) == (psum(q, y) * psum(fes(tb@), y) + psum(fes(r@), y)) % modulus());
                        assert(psum(fes(ta@), y) == psum(fes(ca@), y));
                        assert(psum(fes(tb@), y) == psum(fes(cb@), y));
                    }
                }
            }
            Ok(r)
        },
        Err(e) => Err(e),
    }
}

/// The remainder messages are different texts.
proof fn lemma_remainder_messages()
    ensures
        "zero divisor"@ != "noninvertible series"@,
        "zero divisor"@ != "convolution size limit"@,
        "zero divisor"@ != "convolution size overflow"@,
        "zero divisor"@ != "fast division identity"@,
        "fast division identity"@ != "noninvertible series"@,
{
    reveal_strlit("zero divisor");
    reveal_strlit("noninvertible series");
    reveal_strlit("convolution size limit");
    reveal_strlit("convolution size overflow");
    reveal_strlit("fast division identity");
    assert("zero divisor"@[0] != "noninvertible series"@[0]);
    assert("zero divisor"@[0] != "convolution size limit"@[0]);
    assert("zero divisor"@[0] != "convolution size overflow"@[0]);
    assert("zero divisor"@[0] != "fast division identity"@[0]);
    assert("fast division identity"@[0] != "noninvertible series"@[0]);
}

/// The series messages are different texts.
proof fn lemma_series_messages()
    ensures
        "noninvertible series"@ != "convolution size limit"@,
        "noninvertible series"@ != "convolution size overflow"@,
{
    reveal_strlit("noninvertible series");
    reveal_strlit("convolution size limit");
    reveal_strlit("convolution size overflow");
    assert("noninvertible series"@[0] != "convolution size limit"@[0]);
    assert("noninvertible series"@[0] != "convolution size overflow"@[0]);
}

} // verus!
