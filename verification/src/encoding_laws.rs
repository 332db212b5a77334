//! Laws of the small-field encoding: inverses modulo a prime, the value of the Lagrange
//! and vanishing tables at the coset labels, and the round trip of every valid message
//! through the residual-converting encoding and the decoding by remainders.
use crate::specification::{
    coset_label, inverse_of, label_vanishing, lagrange_denominator, lagrange_numerator, linear, pmul,
    conv_coef, coef_at, poly_value, scale, spec_is_prime, Field, Instance, Parameters,
    lemma_add_congruent, lemma_mul_congruent, lemma_value_push_zero, lemma_value_zeros, lemma_numerator_len,
    lemma_numerator_len_below, lemma_vanishing_len, lemma_degree_facts, lemma_block_split, lemma_mod_sub_eq,
    fold_coefficient, all_below, construction_ok, params_valid, combine,
};
use vstd::arithmetic::div_mod::*;
use vstd::arithmetic::mul::*;
use vstd::arithmetic::power::*;
use vstd::prelude::*;

verus! {

/// A greatest common divisor `g` of `a` and `b` with its Bezout coefficients.
proof fn lemma_bezout(a: int, b: int) -> (r: (int, int, int))
    requires
        a >= 0,
        b >= 0,
        a > 0 || b > 0,
    ensures
        r.0 > 0,
        a % r.0 == 0,
        b % r.0 == 0,
        a * r.1 + b * r.2 == r.0,
    decreases b,
{
    if b == 0 {
        lemma_mod_self_0(a);
        lemma_small_mod(0, a as nat);
        assert(a * 1 + b * 0 == a) by (nonlinear_arith)
            requires
                b == 0,
        ;
        (a, 1, 0)
    } else {
        lemma_mod_bound(a, b);
        let (g, x, y) = lemma_bezout(b, a % b);
        lemma_fundamental_div_mod(a, b);
        let k = a / b;
        assert(a == b * k + a % b);
        // g divides a = b k + (a mod b)
        assert(a % g == 0) by {
            lemma_mul_mod_noop_left(b, k, g);
            lemma_mul_basics(k);
            assert((b * k) % g == 0) by {
                lemma_mul_mod_noop_left(b, k, g);
                assert(((b % g) * k) % g == (b * k) % g);
                assert(0 * k == 0);
                lemma_small_mod(0, g as nat);
            }
            lemma_add_mod_noop(b * k, a % b, g);
            lemma_small_mod(0, g as nat);
        }
        assert(b * x + (a % b) * y == g);
        assert(a * y + b * (x - k * y) == g) by (nonlinear_arith)
            requires
                a == b * k + a % b,
                b * x + (a % b) * y == g,
        ;
        (g, y, x - k * y)
    }
}

/// A positive multiple of `g` is at least `g`.
proof fn lemma_divisor_le(v: int, g: int)
    requires
        v > 0,
        g > 0,
        v % g == 0,
    ensures
        g <= v,
{
    lemma_fundamental_div_mod(v, g);
    let k = v / g;
    assert(v == g * k);
    assert(k >= 1) by (nonlinear_arith)
        requires
            v == g * k,
            v > 0,
            g > 0,
    ;
    assert(g <= g * k) by (nonlinear_arith)
        requires
            k >= 1,
            g > 0,
    ;
}

/// Modulo a prime, every residue that is not a multiple of `q` has an inverse.
pub proof fn lemma_inverse_exists(v: int, q: int)
    requires
        spec_is_prime(q),
        v % q != 0,
    ensures
        0 <= inverse_of(v, q) < q,
        (v * inverse_of(v, q)) % q == 1,
{
    let w = v % q;
    lemma_mod_bound(v, q);
    let (g, x, y) = lemma_bezout(w, q);
    lemma_divisor_le(w, g);
    if g >= 2 {
        assert(q % g != 0);
    }
    assert(g == 1);
    // w x + q y == 1, so w (x mod q) == 1 modulo q
    let z = x % q;
    lemma_mod_bound(x, q);
    assert((w * x) % q == 1) by {
        lemma_mod_multiples_vanish(y, w * x, q);
        assert(w * x + q * y == w * x + y * q) by (nonlinear_arith);
        lemma_small_mod(1, q as nat);
    }
    assert((v * z) % q == 1) by {
        lemma_mul_mod_noop_general(v, x, q);
        lemma_mul_mod_noop_general(w, x, q);
        lemma_mod_twice(v, q);
    }
    assert(0 <= z < q && (v * z) % q == 1);
}

/// Modulo a prime, a product is a multiple of `q` only when a factor is.
pub proof fn lemma_product_nonzero(a: int, b: int, q: int)
    requires
        spec_is_prime(q),
        a % q != 0,
        b % q != 0,
    ensures
        (a * b) % q != 0,
{
    lemma_inverse_exists(a, q);
    let ia = inverse_of(a, q);
    if (a * b) % q == 0 {
        // b = (ia a) b = ia (a b) = 0 modulo q
        assert((ia * (a * b)) % q == 0) by {
            lemma_mul_mod_noop_right(ia, a * b, q);
            lemma_small_mod(0, q as nat);
            assert(ia * 0 == 0);
        }
        assert(ia * (a * b) == (a * ia) * b) by (nonlinear_arith);
        assert(((a * ia) * b) % q == (1 * b) % q) by {
            lemma_mul_mod_noop_left(a * ia, b, q);
            lemma_mul_mod_noop_left(1, b, q);
            lemma_small_mod(1, q as nat);
        }
        assert(1 * b == b);
    }
}

/// A coefficient list congruent to `a + w b` coefficientwise evaluates to `a(y) + w b(y)`
/// modulo `q`.
pub proof fn lemma_value_congruent(c: Seq<u64>, a: Seq<u64>, b: Seq<u64>, w: int, q: int, y: int)
    requires
        q > 0,
        c.len() == a.len(),
        a.len() == b.len(),
        forall|k: int| 0 <= k < c.len() ==> (#[trigger] c[k] as int) % q == (a[k] + w * b[k]) % q,
    ensures
        poly_value(c, y) % q == (poly_value(a, y) + w * poly_value(b, y)) % q,
    decreases c.len(),
{
    if c.len() == 0 {
        assert(w * 0 == 0) by (nonlinear_arith);
    } else {
        let c1 = c.drop_first();
        let a1 = a.drop_first();
        let b1 = b.drop_first();
        assert forall|k: int| 0 <= k < c1.len() implies (#[trigger] c1[k] as int) % q == (a1[k] + w * b1[k]) % q by {
            assert(c1[k] == c[k + 1] && a1[k] == a[k + 1] && b1[k] == b[k + 1]);
        }
        lemma_value_congruent(c1, a1, b1, w, q, y);
        let pc = poly_value(c1, y);
        let pa = poly_value(a1, y);
        let pb = poly_value(b1, y);
        assert((c[0] as int) % q == (a[0] + w * b[0]) % q);
        lemma_mul_congruent(y, y, pc, pa + w * pb, q);
        lemma_add_congruent(c[0] as int, a[0] + w * b[0], y * pc, y * (pa + w * pb), q);
        assert((a[0] + w * b[0]) + y * (pa + w * pb) == (a[0] + y * pa) + w * (b[0] + y * pb))
            by (nonlinear_arith);
    }
}

/// `p` followed by zeros up to length `n`, or cut to `n`.
pub open spec fn padded(p: Seq<u64>, n: nat) -> Seq<u64> {
    Seq::new(n, |t: int| if t < p.len() { p[t] } else { 0u64 })
}

/// Trailing zeros do not change the value.
pub proof fn lemma_value_padded(p: Seq<u64>, n: nat, y: int)
    requires
        p.len() <= n,
    ensures
        poly_value(padded(p, n), y) == poly_value(p, y),
    decreases n,
{
    if n == p.len() {
        assert(padded(p, n) =~= p);
    } else {
        lemma_value_padded(p, (n - 1) as nat, y);
        assert(padded(p, n) =~= padded(p, (n - 1) as nat).push(0));
        lemma_value_push_zero(padded(p, (n - 1) as nat), y);
    }
}

/// The coefficients of a product with `X + b0`, by the first `n` coefficients of `a`.
proof fn lemma_conv_linear(a: Seq<u64>, b0: u64, k: int, n: int)
    requires
        0 <= n <= a.len(),
    ensures
        conv_coef(a, seq![b0, 1u64], k, n) == (if 0 <= k < n { a[k] * b0 } else { 0 }) + (if 1 <= k <= n {
            a[k - 1] as int
        } else {
            0
        }),
    decreases n,
{
    if n > 0 {
        lemma_conv_linear(a, b0, k, n - 1);
        let b = seq![b0, 1u64];
        assert(coef_at(b, k - (n - 1)) == if k == n - 1 { b0 as int } else if k == n { 1int } else { 0int });
        assert(a[n - 1] * 0 == 0);
        assert(a[n - 1] * 1 == a[n - 1]);
    }
}

/// Multiplying by `X - c` multiplies the value by `y - c`.
pub proof fn lemma_value_pmul_linear(a: Seq<u64>, c: int, q: int, y: int)
    requires
        0 < q <= 65537,
        a.len() >= 1,
    ensures
        poly_value(pmul(a, linear(c, q), q), y) % q == ((y - c) * poly_value(a, y)) % q,
{
    let b0 = ((0 - c) % q) as u64;
    lemma_mod_bound(0 - c, q);
    assert(linear(c, q) == seq![b0, 1u64]);
    let n = a.len();
    let prod = pmul(a, linear(c, q), q);
    let sh = seq![0u64] + a;
    let pd = a.push(0);
    assert(prod.len() == n + 1);
    assert forall|k: int| 0 <= k < prod.len() implies (#[trigger] prod[k] as int) % q == (sh[k] + b0 * pd[k]) % q by {
        lemma_conv_linear(a, b0, k, n as int);
        let cv = conv_coef(a, linear(c, q), k, n as int);
        lemma_mod_bound(cv, q);
        lemma_mod_twice(cv, q);
        assert(cv == sh[k] + b0 * pd[k]) by {
            if k < n {
                assert(pd[k] == a[k]);
                assert(a[k] * b0 == b0 * a[k]) by (nonlinear_arith);
            } else {
                assert(pd[k] == 0);
                assert(b0 * 0 == 0) by (nonlinear_arith);
            }
            if k >= 1 {
                assert(sh[k] == a[k - 1]);
            } else {
                assert(sh[k] == 0);
            }
        }
    }
    lemma_value_congruent(prod, sh, pd, b0 as int, q, y);
    lemma_value_push_zero(a, y);
    assert(sh.drop_first() =~= a);
    let pa = poly_value(a, y);
    assert(poly_value(sh, y) == 0 + y * pa);
    assert(y * pa + b0 * pa == (y + b0) * pa) by (nonlinear_arith);
    assert((y + b0) % q == (y - c) % q) by {
        lemma_add_mod_noop(y, b0 as int, q);
        lemma_add_mod_noop(y, 0 - c, q);
        lemma_mod_twice(0 - c, q);
    }
    lemma_mul_congruent(y + b0, y - c, pa, pa, q);
}

/// Scaling the coefficients scales the value.
pub proof fn lemma_value_scale(p: Seq<u64>, w: int, q: int, y: int)
    requires
        0 < q <= 65537,
        0 <= w,
        forall|k: int| 0 <= k < p.len() ==> #[trigger] p[k] < q,
    ensures
        poly_value(scale(p, w, q), y) % q == (w * poly_value(p, y)) % q,
{
    let z = Seq::new(p.len(), |k: int| 0u64);
    let sc = scale(p, w, q);
    assert forall|k: int| 0 <= k < sc.len() implies (#[trigger] sc[k] as int) % q == (z[k] + w * p[k]) % q by {
        lemma_mod_bound(p[k] * w, q);
        lemma_mod_twice(p[k] * w, q);
        assert(p[k] * w == w * p[k]) by (nonlinear_arith);
    }
    lemma_value_congruent(sc, z, p, w, q, y);
    lemma_value_zeros(z, y);
}

/// `prod_{o < n, o != s} (y - gamma_o)`.
pub open spec fn label_product(f: Field, p: Parameters, g: int, s: int, n: int, y: int) -> int
    decreases n,
{
    if n <= 0 {
        1
    } else if n - 1 == s {
        label_product(f, p, g, s, n - 1, y)
    } else {
        label_product(f, p, g, s, n - 1, y) * (y - coset_label(f, p, g, n - 1))
    }
}

/// The Lagrange numerator evaluates to the product of its linear factors.
pub proof fn lemma_value_numerator(f: Field, p: Parameters, g: int, s: int, n: int, y: int)
    requires
        0 < f.modulus() <= 65537,
        n >= 0,
    ensures
        poly_value(lagrange_numerator(f, p, g, s, n), y) % f.modulus() == label_product(f, p, g, s, n, y)
            % f.modulus(),
        lagrange_numerator(f, p, g, s, n).len() >= 1,
    decreases n,
{
    let q = f.modulus();
    if n == 0 {
        let one = seq![1u64];
        assert(lagrange_numerator(f, p, g, s, n) == one);
        assert(one.drop_first() =~= Seq::<u64>::empty());
        assert(poly_value(Seq::<u64>::empty(), y) == 0);
        assert(y * 0 == 0) by (nonlinear_arith);
        assert(poly_value(one, y) == 1);
    } else if n - 1 == s {
        lemma_value_numerator(f, p, g, s, n - 1, y);
    } else {
        lemma_value_numerator(f, p, g, s, n - 1, y);
        let prev = lagrange_numerator(f, p, g, s, n - 1);
        let lab = coset_label(f, p, g, n - 1);
        lemma_value_pmul_linear(prev, lab, q, y);
        lemma_mul_congruent(y - lab, y - lab, poly_value(prev, y), label_product(f, p, g, s, n - 1, y), q);
        assert((y - lab) * label_product(f, p, g, s, n - 1, y) == label_product(f, p, g, s, n - 1, y) * (y - lab))
            by (nonlinear_arith);
    }
}

/// The vanishing polynomial of the first `n` labels is the numerator that skips no label.
pub proof fn lemma_vanishing_numerator(f: Field, p: Parameters, g: int, n: int)
    requires
        n >= 0,
    ensures
        label_vanishing(f, p, g, n) == lagrange_numerator(f, p, g, -1, n),
    decreases n,
{
    if n > 0 {
        lemma_vanishing_numerator(f, p, g, n - 1);
    }
}

/// The product vanishes at every other label it runs over.
pub proof fn lemma_label_product_zero(f: Field, p: Parameters, g: int, s: int, n: int, t: int)
    requires
        0 <= t < n,
        t != s,
    ensures
        label_product(f, p, g, s, n, coset_label(f, p, g, t)) == 0,
    decreases n,
{
    let y = coset_label(f, p, g, t);
    if t < n - 1 {
        lemma_label_product_zero(f, p, g, s, n - 1, t);
        let fac = y - coset_label(f, p, g, n - 1);
        assert(0 * fac == 0);
    } else {
        let b = label_product(f, p, g, s, n - 1, y);
        assert(b * 0 == 0);
    }
}

/// At its own label, the product is the Lagrange denominator modulo `q`.
pub proof fn lemma_label_product_denominator(f: Field, p: Parameters, g: int, s: int, n: int)
    requires
        f.modulus() > 0,
        n >= 0,
    ensures
        label_product(f, p, g, s, n, coset_label(f, p, g, s)) % f.modulus() == lagrange_denominator(f, p, g, s, n)
            % f.modulus(),
    decreases n,
{
    let q = f.modulus();
    if n > 0 && n - 1 != s {
        lemma_label_product_denominator(f, p, g, s, n - 1);
        let y = coset_label(f, p, g, s);
        let d = y - coset_label(f, p, g, n - 1);
        let prev = lagrange_denominator(f, p, g, s, n - 1);
        lemma_mod_twice(d, q);
        lemma_mul_congruent(label_product(f, p, g, s, n - 1, y), prev, d, d % q, q);
        lemma_mod_twice(prev * (d % q), q);
    } else if n > 0 {
        lemma_label_product_denominator(f, p, g, s, n - 1);
    }
}

/// Every coefficient of a Lagrange numerator is a canonical residue.
pub proof fn lemma_numerator_below(f: Field, p: Parameters, g: int, s: int, n: int)
    requires
        1 < f.modulus() <= 65537,
        n >= 0,
    ensures
        all_below(lagrange_numerator(f, p, g, s, n), f.modulus()),
    decreases n,
{
    let q = f.modulus();
    if n > 0 {
        lemma_numerator_below(f, p, g, s, n - 1);
        if n - 1 != s {
            let prev = lagrange_numerator(f, p, g, s, n - 1);
            let lin = linear(coset_label(f, p, g, n - 1), q);
            assert forall|k: int| 0 <= k < pmul(prev, lin, q).len() implies #[trigger] pmul(prev, lin, q)[k] < q by {
                lemma_mod_bound(conv_coef(prev, lin, k, prev.len() as int), q);
            }
        }
    }
}

/// The value of a source Lagrange polynomial at the label of source group `t` is one at
/// its own group and zero at the others.
pub proof fn lemma_lagrange_at_labels(inst: Instance, s: int, t: int)
    requires
        inst.wf(),
        0 <= s < inst.spec_params().spec_a(),
        0 <= t < inst.spec_params().spec_a(),
    ensures
        inst.lagrange_weight(s, inst.spec_gamma()[t] as int) == if s == t { 1int } else { 0int },
{
    inst.lemma_tables();
    let f = inst.spec_field();
    let p = inst.spec_params();
    let q = f.modulus();
    let g = inst.spec_generator() as int;
    let a = p.spec_a();
    lemma_degree_facts(p, inst.spec_residual_group());
    let num = lagrange_numerator(f, p, g, s, a);
    let den = lagrange_denominator(f, p, g, s, a);
    let y = coset_label(f, p, g, t);
    assert(inst.spec_gamma()[t] == y);
    lemma_den_below(f, p, g, s, a);
    assert(den % q != 0) by {
        lemma_small_mod(den as nat, q as nat);
    }
    lemma_inverse_exists(den, q);
    let inv = inverse_of(den, q);
    lemma_numerator_below(f, p, g, s, a);
    lemma_value_scale(num, inv, q, y);
    lemma_value_numerator(f, p, g, s, a, y);
    lemma_mul_congruent(inv, inv, poly_value(num, y), label_product(f, p, g, s, a, y), q);
    if s == t {
        lemma_label_product_denominator(f, p, g, s, a);
        lemma_mul_congruent(inv, inv, label_product(f, p, g, s, a, y), den, q);
        assert(inv * den == den * inv) by (nonlinear_arith);
    } else {
        lemma_label_product_zero(f, p, g, s, a, t);
        assert(inv * 0 == 0);
        lemma_small_mod(0, q as nat);
    }
}

/// A Lagrange denominator is a canonical residue.
proof fn lemma_den_below(f: Field, p: Parameters, g: int, s: int, n: int)
    requires
        1 < f.modulus(),
        n >= 0,
    ensures
        0 <= lagrange_denominator(f, p, g, s, n) < f.modulus(),
    decreases n,
{
    if n > 0 {
        lemma_den_below(f, p, g, s, n - 1);
        if n - 1 != s {
            lemma_mod_bound(
                lagrange_denominator(f, p, g, s, n - 1) * ((coset_label(f, p, g, s) - coset_label(f, p, g, n - 1))
                    % f.modulus()),
                f.modulus(),
            );
        }
    }
}

/// The vanishing polynomial of the source labels evaluates to the product over them.
pub proof fn lemma_value_vanishing(inst: Instance, y: int)
    requires
        inst.wf(),
    ensures
        poly_value(inst.spec_vanishing(), y) % inst.spec_field().modulus() == label_product(
            inst.spec_field(),
            inst.spec_params(),
            inst.spec_generator() as int,
            -1,
            inst.spec_params().spec_a(),
            y,
        ) % inst.spec_field().modulus(),
        inst.spec_vanishing().len() == inst.spec_params().spec_a() + 1,
{
    inst.lemma_tables();
    let f = inst.spec_field();
    let p = inst.spec_params();
    let g = inst.spec_generator() as int;
    lemma_degree_facts(p, inst.spec_residual_group());
    lemma_vanishing_numerator(f, p, g, p.spec_a());
    lemma_value_numerator(f, p, g, -1, p.spec_a(), y);
    lemma_vanishing_len(f, p, g, p.spec_a());
}

/// The product over the first `n` labels is nonzero at any later label.
proof fn lemma_label_product_nonzero(f: Field, p: Parameters, g: int, n: int, j: int)
    requires
        spec_is_prime(f.modulus()),
        0 <= n <= j < p.ell,
        construction_ok(f, p),
        g == crate::specification::least_generator(f),
    ensures
        label_product(f, p, g, -1, n, coset_label(f, p, g, j)) % f.modulus() != 0,
    decreases n,
{
    let q = f.modulus();
    let y = coset_label(f, p, g, j);
    if n == 0 {
        lemma_small_mod(1, q as nat);
    } else {
        lemma_label_product_nonzero(f, p, g, n - 1, j);
        let o = n - 1;
        let lab = coset_label(f, p, g, o);
        assert(lab != y);
        lemma_mod_bound(vstd::arithmetic::power::pow(crate::specification::coset_beta(f, g, j), p.m as nat), q);
        lemma_mod_bound(vstd::arithmetic::power::pow(crate::specification::coset_beta(f, g, o), p.m as nat), q);
        if (y - lab) % q == 0 {
            lemma_mod_sub_eq(y, lab, q);
        }
        lemma_product_nonzero(label_product(f, p, g, -1, n - 1, y), y - lab, q);
    }
}

/// The residual group's weight `B(gamma_g)` is nonzero: its label differs from every
/// source label, so the residual conversion always applies.
pub proof fn lemma_residual_weight_nonzero(inst: Instance)
    requires
        inst.wf(),
    ensures
        inst.spec_residual_group() matches Some(g) ==> inst.residual_weight(g as int) != 0,
{
    inst.lemma_tables();
    if let Some(g) = inst.spec_residual_group() {
        let f = inst.spec_field();
        let p = inst.spec_params();
        let y = inst.spec_gamma()[g as int] as int;
        lemma_value_vanishing(inst, y);
        lemma_label_product_nonzero(f, p, inst.spec_generator() as int, p.spec_a(), g as int);
    }
}

/// The position `i + t m`.
pub open spec fn slot(i: int, t: int, m: int) -> int {
    i + t * m
}

/// The coefficients `f[i], f[i + m], f[i + 2m], ...` of `f`.
pub open spec fn column(f: Seq<u64>, i: int, m: int) -> Seq<u64>
    decreases f.len() - i,
    when m > 0
{
    if i < 0 || i >= f.len() {
        Seq::empty()
    } else if i + m >= f.len() {
        seq![f[i]]
    } else {
        seq![f[i]] + column(f, i + m, m)
    }
}

/// The column of `f` at `i` evaluates to the fold at `y`, holds exactly the coefficients
/// `f[i + t m]` inside `f`, and is as long as there are such coefficients.
pub open spec fn column_facts(f: Seq<u64>, i: int, m: int, y: int) -> bool {
    &&& fold_coefficient(f, i, m, y) == poly_value(column(f, i, m), y)
    &&& forall|t: int|
        0 <= t < column(f, i, m).len() ==> #[trigger] column(f, i, m)[t] == f[slot(i, t, m)] && slot(i, t, m) < f.len()
    &&& forall|t: int| 0 <= t && #[trigger] slot(i, t, m) < f.len() ==> t < column(f, i, m).len()
}

/// Folding `f` modulo `X^m - gamma` at coefficient `i` evaluates its column at `gamma`;
/// the column holds exactly the coefficients `f[i + t m]` inside `f`.
#[verifier::spinoff_prover]
pub proof fn lemma_fold_column(f: Seq<u64>, i: int, m: int, y: int)
    requires
        m > 0,
        0 <= i,
    ensures
        column_facts(f, i, m, y),
    decreases f.len() - i,
{
    if i >= f.len() {
        assert(column(f, i, m).len() == 0);
        assert forall|t: int| 0 <= t && #[trigger] slot(i, t, m) < f.len() implies t < column(f, i, m).len() by {
            assert(t * m >= 0) by (nonlinear_arith) requires t >= 0, m > 0;
        }
    } else if i + m >= f.len() {
        lemma_column_single(f, i, m, y);
    } else {
        lemma_fold_column(f, i + m, m, y);
        lemma_column_step(f, i, m, y);
    }
}

/// The last coefficient of a column.
proof fn lemma_column_single(f: Seq<u64>, i: int, m: int, y: int)
    requires
        m > 0,
        0 <= i < f.len(),
        i + m >= f.len(),
    ensures
        column_facts(f, i, m, y),
{
    let c = column(f, i, m);
    assert(c == seq![f[i]]);
    assert(c.drop_first() =~= Seq::<u64>::empty());
    assert(poly_value(Seq::<u64>::empty(), y) == 0);
    assert(y * 0 == 0) by (nonlinear_arith);
    assert(slot(i, 0, m) == i) by (nonlinear_arith)
        requires
            m > 0,
    ;
    assert forall|t: int| 0 <= t < column(f, i, m).len() implies #[trigger] column(f, i, m)[t] == f[slot(i, t, m)]
        && slot(i, t, m) < f.len() by {
        assert(t == 0);
    }
    assert forall|t: int| 0 <= t && #[trigger] slot(i, t, m) < f.len() implies t < column(f, i, m).len() by {
        if t >= 1 {
            assert(t * m >= m) by (nonlinear_arith) requires t >= 1, m > 0;
        }
    }
}

/// A column is its first coefficient followed by the column one block further.
proof fn lemma_column_step(f: Seq<u64>, i: int, m: int, y: int)
    requires
        m > 0,
        0 <= i,
        i + m < f.len(),
        column_facts(f, i + m, m, y),
    ensures
        column_facts(f, i, m, y),
{
    let c = column(f, i, m);
    let rest = column(f, i + m, m);
    assert(c == seq![f[i]] + rest);
    assert(c.drop_first() =~= rest);
    assert(slot(i, 0, m) == i) by (nonlinear_arith)
        requires
            m > 0,
    ;
    assert forall|t: int| 0 <= t < column(f, i, m).len() implies #[trigger] column(f, i, m)[t] == f[slot(i, t, m)]
        && slot(i, t, m) < f.len() by {
        if t > 0 {
            assert(c[t] == rest[t - 1]);
            assert(slot(i + m, t - 1, m) == slot(i, t, m)) by (nonlinear_arith);
        }
    }
    assert forall|t: int| 0 <= t && #[trigger] slot(i, t, m) < f.len() implies t < column(f, i, m).len() by {
        if t > 0 {
            assert(slot(i + m, t - 1, m) == slot(i, t, m)) by (nonlinear_arith);
            assert(t - 1 < rest.len());
        }
    }
}

/// The source part of the encoding at coefficients `t m + i`, for `t < n_coeffs`.
pub open spec fn source_column(inst: Instance, message: Seq<u64>, i: int, n: int, count: nat) -> Seq<u64> {
    Seq::new(
        count,
        |t: int|
            (inst.source_part(message, t * (inst.spec_params().m as int) + i, n) % inst.spec_field().modulus()) as u64,
    )
}

/// The length of a source Lagrange polynomial is `a`.
proof fn lemma_lagrange_len(inst: Instance, s: int)
    requires
        inst.wf(),
        0 <= s < inst.spec_params().spec_a(),
    ensures
        inst.spec_lagrange()[s].len() == inst.spec_params().spec_a(),
        all_below(inst.spec_lagrange()[s], inst.spec_field().modulus()),
{
    inst.lemma_tables();
    let f = inst.spec_field();
    let p = inst.spec_params();
    let q = f.modulus();
    let g = inst.spec_generator() as int;
    lemma_numerator_len(f, p, g, s, p.spec_a());
    let inv = inverse_of(lagrange_denominator(f, p, g, s, p.spec_a()), q);
    let sc = scale(lagrange_numerator(f, p, g, s, p.spec_a()), inv, q);
    assert forall|k: int| 0 <= k < sc.len() implies #[trigger] sc[k] < q by {
        lemma_mod_bound(lagrange_numerator(f, p, g, s, p.spec_a())[k] * inv, q);
    }
}

/// The source part of a column evaluates to the Lagrange combination of the first `n`
/// sources at `y`.
proof fn lemma_source_column_value(inst: Instance, message: Seq<u64>, i: int, n: int, count: nat, y: int)
    requires
        inst.wf(),
        inst.valid_message(message),
        0 <= i < inst.spec_params().r,
        0 <= n <= inst.spec_params().spec_a(),
        count >= inst.spec_params().spec_a(),
    ensures
        poly_value(source_column(inst, message, i, n, count), y) % inst.spec_field().modulus() == inst.source_sum(
            message,
            y,
            i,
            n,
        ) % inst.spec_field().modulus(),
    decreases n,
{
    inst.lemma_tables();
    let p = inst.spec_params();
    let q = inst.spec_field().modulus();
    let m = p.m as int;
    let r = p.r as int;
    let a = p.spec_a();
    lemma_degree_facts(p, inst.spec_residual_group());
    let col = source_column(inst, message, i, n, count);
    if n == 0 {
        assert forall|t: int| 0 <= t < col.len() implies #[trigger] col[t] == 0 by {
            lemma_small_mod(0, q as nat);
        }
        lemma_value_zeros(col, y);
        lemma_small_mod(0, q as nat);
    } else {
        lemma_source_column_value(inst, message, i, n - 1, count, y);
        let prev = source_column(inst, message, i, n - 1, count);
        let l = inst.spec_lagrange()[n - 1];
        lemma_lagrange_len(inst, n - 1);
        let pl = padded(l, count);
        let idx = (n - 1) * r + i;
        assert(idx < a * r) by (nonlinear_arith)
            requires
                idx == (n - 1) * r + i,
                1 <= n <= a,
                0 <= i < r,
        ;
        let w = message[idx] as int;
        assert forall|t: int| 0 <= t < col.len() implies (#[trigger] col[t] as int) % q == (prev[t] + w * pl[t]) % q by {
            let power = t * m + i;
            lemma_block_split(t, i, m);
            let sp = inst.source_part(message, power, n - 1);
            let term = if t < l.len() { l[t] * message[idx] } else { 0 };
            assert(inst.source_part(message, power, n) == sp + term);
            assert(term == w * pl[t]) by {
                if t < l.len() {
                    assert(l[t] * message[idx] == w * l[t]) by (nonlinear_arith)
                        requires
                            w == message[idx],
                    ;
                } else {
                    assert(w * 0 == 0);
                }
            }
            lemma_mod_bound(sp + term, q);
            lemma_mod_bound(sp, q);
            lemma_mod_twice(sp + term, q);
            lemma_mod_twice(sp, q);
            lemma_add_congruent(prev[t] as int, sp, w * pl[t], w * pl[t], q);
        }
        lemma_value_congruent(col, prev, pl, w, q, y);
        lemma_value_padded(l, count, y);
        let pv = poly_value(l, y);
        let ss = inst.source_sum(message, y, i, n - 1);
        lemma_mod_twice(pv, q);
        lemma_mul_congruent(w, w, pv, pv % q, q);
        assert(w * (pv % q) == (pv % q) * w) by (nonlinear_arith);
        lemma_add_congruent(poly_value(prev, y), ss, w * pv, (pv % q) * message[idx], q);
    }
}

/// The remainder of an encoding modulo `X^m - y` at coefficient `i` is the source
/// combination at `y` plus `e_i B(y)`.
pub proof fn lemma_encoded_column(inst: Instance, message: Seq<u64>, e: Seq<u64>, i: int, y: int)
    requires
        inst.wf(),
        inst.valid_message(message),
        e.len() <= inst.spec_params().spec_b(),
        0 <= i < inst.spec_params().r,
    ensures
        fold_coefficient(inst.spec_encode(message, e), i, inst.spec_params().m as int, y) % inst.spec_field().modulus()
            == (inst.source_sum(message, y, i, inst.spec_params().spec_a()) + (if i < e.len() {
            e[i] as int
        } else {
            0
        }) * poly_value(inst.spec_vanishing(), y)) % inst.spec_field().modulus(),
{
    inst.lemma_tables();
    let p = inst.spec_params();
    let q = inst.spec_field().modulus();
    let m = p.m as int;
    let r = p.r as int;
    let a = p.spec_a();
    let b = p.spec_b();
    let d = inst.spec_degree();
    lemma_degree_facts(p, inst.spec_residual_group());
    let f = inst.spec_encode(message, e);
    let bv = inst.spec_vanishing();
    lemma_value_vanishing(inst, y);
    lemma_fold_column(f, i, m, y);
    let c = column(f, i, m);
    let count = c.len();
    assert(a - 1 < count) by {
        assert((a - 1) * m + i <= d) by (nonlinear_arith)
            requires
                0 <= i < r,
                r < m,
                b == 0 ==> d == (a - 1) * m + r - 1,
                b > 0 ==> d == a * m + b - 1,
                a >= 1,
                b >= 0,
        ;
        assert(slot(i, a - 1, m) < f.len());
    }
    let ei: int = if i < e.len() { e[i] as int } else { 0 };
    if i < e.len() {
        assert(a < count) by {
            assert(a * m + i <= d) by (nonlinear_arith)
                requires
                    i < b,
                    b > 0,
                    d == a * m + b - 1,
            ;
            assert(slot(i, a, m) < f.len());
        }
    }
    let sc = source_column(inst, message, i, a, count);
    let pb = padded(bv, count);
    assert forall|t: int| 0 <= t < c.len() implies (#[trigger] c[t] as int) % q == (sc[t] + ei * pb[t]) % q by {
        let power = t * m + i;
        assert(slot(i, t, m) == power);
        lemma_block_split(t, i, m);
        let sp = inst.source_part(message, power, a);
        let rp = inst.residual_part(e, power);
        assert(c[t] == f[power]);
        assert(rp == ei * pb[t]) by {
            if i < e.len() && t < bv.len() {
                assert(bv[t] * e[i] == ei * bv[t]) by (nonlinear_arith)
                    requires
                        ei == e[i],
                ;
            } else if i < e.len() {
                assert(ei * 0 == 0);
            } else {
                assert(0 * pb[t] == 0);
            }
        }
        lemma_mod_bound(sp + rp, q);
        lemma_mod_bound(sp, q);
        lemma_mod_twice(sp + rp, q);
        lemma_mod_twice(sp, q);
        lemma_add_congruent(sc[t] as int, sp, ei * pb[t], ei * pb[t], q);
    }
    lemma_value_congruent(c, sc, pb, ei, q, y);
    lemma_source_column_value(inst, message, i, a, count, y);
    if i < e.len() {
        lemma_value_padded(bv, count, y);
    } else {
        assert(ei * poly_value(pb, y) == 0);
        assert(ei * poly_value(bv, y) == 0);
    }
    lemma_add_congruent(poly_value(sc, y), inst.source_sum(message, y, i, a), ei * poly_value(pb, y), ei * poly_value(bv, y), q);
}

/// At the label of source group `s0`, the Lagrange combination picks that group's
/// coordinate.
pub proof fn lemma_source_sum_at_label(inst: Instance, message: Seq<u64>, s0: int, i: int, n: int)
    requires
        inst.wf(),
        inst.valid_message(message),
        0 <= s0 < inst.spec_params().spec_a(),
        0 <= i < inst.spec_params().r,
        0 <= n <= inst.spec_params().spec_a(),
    ensures
        inst.source_sum(message, inst.spec_gamma()[s0] as int, i, n) == if s0 < n {
            message[s0 * inst.spec_params().r + i] as int
        } else {
            0
        },
    decreases n,
{
    if n > 0 {
        lemma_source_sum_at_label(inst, message, s0, i, n - 1);
        lemma_lagrange_at_labels(inst, n - 1, s0);
        let x = message[(n - 1) * inst.spec_params().r + i];
        assert(0 * x == 0);
        assert(1 * x == x);
    }
}

/// Whatever residual of at most `b` coefficients is encoded, decoding gives back every
/// source coordinate: the residual term vanishes at the source labels.
pub proof fn lemma_decode_source(inst: Instance, message: Seq<u64>, e: Seq<u64>, idx: int)
    requires
        inst.wf(),
        inst.valid_message(message),
        e.len() <= inst.spec_params().spec_b(),
        0 <= idx < inst.spec_params().spec_a() * inst.spec_params().r,
    ensures
        inst.spec_decode(inst.spec_encode(message, e))[idx] == message[idx],
{
    inst.lemma_tables();
    let p = inst.spec_params();
    let q = inst.spec_field().modulus();
    let r = p.r as int;
    let a = p.spec_a();
    let ar = a * r;
    lemma_degree_facts(p, inst.spec_residual_group());
    let s0 = idx / r;
    let i = idx % r;
    lemma_fundamental_div_mod(idx, r);
    lemma_mod_bound(idx, r);
    assert(s0 < a) by (nonlinear_arith)
        requires
            idx == r * s0 + i,
            idx < a * r,
            0 <= i,
            r > 0,
    ;
    assert(0 <= s0) by (nonlinear_arith)
        requires
            idx == r * s0 + i,
            0 <= idx,
            i < r,
            r > 0,
    ;
    let y = inst.spec_gamma()[s0] as int;
    lemma_encoded_column(inst, message, e, i, y);
    lemma_source_sum_at_label(inst, message, s0, i, a);
    assert(s0 * r + i == idx) by (nonlinear_arith)
        requires
            idx == r * s0 + i,
    ;
    let f0 = inst.spec_field();
    let g = inst.spec_generator() as int;
    lemma_value_vanishing(inst, y);
    lemma_label_product_zero(f0, p, g, -1, a, s0);
    let ei: int = if i < e.len() { e[i] as int } else { 0 };
    let pv = poly_value(inst.spec_vanishing(), y);
    lemma_small_mod(0, q as nat);
    lemma_mul_congruent(ei, ei, pv, 0, q);
    assert(ei * 0 == 0);
    lemma_add_congruent(message[idx] as int, message[idx] as int, ei * pv, 0, q);
    lemma_small_mod(message[idx] as nat, q as nat);
}

/// Decoding the residual-converting encoding of a valid message gives the message back;
/// the conversion always applies, since the residual group's weight is nonzero.
pub proof fn lemma_round_trip(inst: Instance, message: Seq<u64>)
    requires
        inst.wf(),
        inst.valid_message(message),
    ensures
        inst.spec_residual_group() matches Some(g) ==> inst.residual_weight(g as int) != 0,
        inst.spec_decode(inst.spec_encode(message, inst.spec_residual(message, true))) == message,
{
    inst.lemma_tables();
    lemma_residual_weight_nonzero(inst);
    let p = inst.spec_params();
    let q = inst.spec_field().modulus();
    let m = p.m as int;
    let r = p.r as int;
    let a = p.spec_a();
    let b = p.spec_b();
    let ar = a * r;
    lemma_degree_facts(p, inst.spec_residual_group());
    let e = inst.spec_residual(message, true);
    let f = inst.spec_encode(message, e);
    let dec = inst.spec_decode(f);
    assert(e.len() <= b) by {
        assert(message.subrange(ar, p.k as int).len() == b);
    }
    assert forall|idx: int| 0 <= idx < message.len() implies #[trigger] dec[idx] == message[idx] by {
        if idx < ar {
            lemma_decode_source(inst, message, e, idx);
        } else {
            let i = idx - ar;
            assert(b > 0);
            let g = inst.spec_residual_group()->0;
            let y = inst.spec_gamma()[g as int] as int;
            let v = message.subrange(ar, p.k as int);
            let base = inst.spec_source_combination(message, y);
            let bw = inst.residual_weight(g as int);
            let inv = inverse_of(bw, q);
            lemma_mod_bound(poly_value(inst.spec_vanishing(), y), q);
            lemma_small_mod(bw as nat, q as nat);
            lemma_inverse_exists(bw, q);
            assert(i < r);
            lemma_encoded_column(inst, message, e, i, y);
            let ss = inst.source_sum(message, y, i, a);
            let pv = poly_value(inst.spec_vanishing(), y);
            let vi = v[i] as int;
            let bi = base[i] as int;
            let ei = e[i] as int;
            assert(vi == message[idx]);
            assert(bi == ss % q);
            let dlt = (vi - bi) % q;
            assert(ei == (dlt * inv) % q);
            // e_i B(y) = (v_i - base_i) inv B(y) = v_i - base_i modulo q
            assert((ei * pv) % q == (vi - bi) % q) by {
                lemma_mod_twice(dlt * inv, q);
                lemma_mul_congruent(ei, dlt * inv, pv, bw, q);
                assert((dlt * inv) * bw == dlt * (bw * inv)) by (nonlinear_arith);
                lemma_small_mod(1, q as nat);
                lemma_mul_congruent(dlt, dlt, bw * inv, 1, q);
                lemma_mod_twice(vi - bi, q);
                assert(dlt * 1 == dlt);
            }
            lemma_mod_twice(ss, q);
            lemma_add_congruent(ss, bi, ei * pv, vi - bi, q);
            assert(bi + (vi - bi) == vi);
            lemma_small_mod(vi as nat, q as nat);
        }
    }
    assert(dec =~= message);
}

/// Without the residual conversion, decoding gives the message back exactly when the
/// message meets equation 16, `base_i + (B(gamma_g) - 1) v_i = 0` for every residual
/// coordinate.
pub proof fn lemma_mutation_condition(inst: Instance, message: Seq<u64>)
    requires
        inst.wf(),
        inst.valid_message(message),
    ensures
        (inst.spec_decode(inst.spec_encode(message, inst.spec_residual(message, false))) == message)
            <==> inst.spec_mutation_condition(message),
{
    inst.lemma_tables();
    let p = inst.spec_params();
    let q = inst.spec_field().modulus();
    let r = p.r as int;
    let a = p.spec_a();
    let b = p.spec_b();
    let ar = a * r;
    lemma_degree_facts(p, inst.spec_residual_group());
    match inst.spec_residual_group() {
        None => {
            assert(inst.spec_residual(message, false) == inst.spec_residual(message, true));
            lemma_round_trip(inst, message);
        },
        Some(g) => {
            let e = inst.spec_residual(message, false);
            let v = message.subrange(ar, p.k as int);
            assert(e == v);
            let dec = inst.spec_decode(inst.spec_encode(message, e));
            let y = inst.spec_gamma()[g as int] as int;
            let base = inst.spec_source_combination(message, y);
            let bw = inst.residual_weight(g as int);
            let w = (bw - 1) % q;
            let pv = poly_value(inst.spec_vanishing(), y);
            lemma_mod_bound(pv, q);
            // the residual coordinate `i` decodes to v_i exactly when equation 16 holds at i
            assert forall|i: int| 0 <= i < b implies (dec[ar + i] == message[ar + i] <==> (#[trigger] base[i] + w
                * message[ar + i]) % q == 0) by {
                let idx = ar + i;
                assert(i < r);
                lemma_encoded_column(inst, message, e, i, y);
                let ss = inst.source_sum(message, y, i, a);
                let vi = message[idx] as int;
                let bi = base[i] as int;
                assert(e[i] == vi);
                lemma_mod_twice(ss, q);
                lemma_mod_twice(pv, q);
                lemma_mul_congruent(vi, vi, pv, bw, q);
                lemma_add_congruent(ss, bi, vi * pv, vi * bw, q);
                let x = bi + vi * bw;
                lemma_mod_bound(x, q);
                lemma_mod_bound(ss + vi * pv, q);
                assert(dec[idx] as int == (ss + vi * pv) % q);
                // x mod q = v_i  <=>  (x - v_i) mod q = 0
                assert(x - vi == bi + (bw - 1) * vi) by (nonlinear_arith)
                    requires
                        x == bi + vi * bw,
                ;
                lemma_mod_twice(bw - 1, q);
                lemma_mul_congruent(w, bw - 1, vi, vi, q);
                assert(w * vi == vi * w) by (nonlinear_arith);
                assert((bw - 1) * vi == vi * (bw - 1)) by (nonlinear_arith);
                lemma_add_congruent(bi, bi, w * vi, (bw - 1) * vi, q);
                if x % q == vi {
                    lemma_small_mod(vi as nat, q as nat);
                    lemma_sub_mod_noop_congruent(x, vi, q);
                } else if (x - vi) % q == 0 {
                    lemma_sub_mod_noop_congruent(x, vi, q);
                    lemma_small_mod(vi as nat, q as nat);
                    lemma_mod_bound(x, q);
                    lemma_mod_sub_eq(x % q, vi, q);
                }
            }
            if inst.spec_mutation_condition(message) {
                assert forall|idx: int| 0 <= idx < message.len() implies #[trigger] dec[idx] == message[idx] by {
                    if idx < ar {
                        lemma_decode_source(inst, message, e, idx);
                    } else {
                        let i = idx - ar;
                        assert((base[i] + w * message[ar + i]) % q == 0);
                    }
                }
                assert(dec =~= message);
            }
            if dec == message {
                assert forall|i: int| 0 <= i < b implies (#[trigger] base[i] + w * message[ar + i]) % q == 0 by {
                    assert(dec[ar + i] == message[ar + i]);
                }
            }
        },
    }
}

/// `x - v` is a multiple of `q` exactly when `x` and `v` agree modulo `q`.
proof fn lemma_sub_mod_noop_congruent(x: int, v: int, q: int)
    requires
        q > 0,
    ensures
        (x - v) % q == 0 <==> x % q == v % q,
{
    lemma_fundamental_div_mod(x, q);
    lemma_fundamental_div_mod(v, q);
    lemma_mod_bound(x, q);
    lemma_mod_bound(v, q);
    let xq = x / q;
    let vq = v / q;
    assert(x - v == q * (xq - vq) + (x % q - v % q)) by (nonlinear_arith)
        requires
            x == q * xq + x % q,
            v == q * vq + v % q,
    ;
    if x % q == v % q {
        assert(x - v == (xq - vq) * q) by (nonlinear_arith)
            requires
                x - v == q * (xq - vq) + (x % q - v % q),
                x % q == v % q,
        ;
        lemma_mod_multiples_basic(xq - vq, q);
    } else {
        let dr = x % q - v % q;
        assert(-q < dr < q && dr != 0);
        lemma_mod_multiples_vanish(xq - vq, dr, q);
        assert(q * (xq - vq) + dr == dr + q * (xq - vq));
        if dr > 0 {
            lemma_small_mod(dr as nat, q as nat);
        } else {
            lemma_mod_multiples_vanish(1, dr, q);
            lemma_small_mod((dr + q) as nat, q as nat);
            assert(q * 1 + dr == dr + q);
        }
    }
}

/// Exponents below `n` whose residue modulo `m` is below `r`.
pub open spec fn support_count(m: int, r: int, n: int) -> int
    decreases n,
{
    if n <= 0 {
        0
    } else {
        support_count(m, r, n - 1) + if (n - 1) % m < r {
            1int
        } else {
            0int
        }
    }
}

/// Below `t m + i`, `t` full blocks contribute `r` exponents each and the last block
/// `min(i, r)`.
proof fn lemma_support_block(m: int, r: int, t: int, i: int)
    requires
        0 < r < m,
        0 <= t,
        0 <= i <= m,
    ensures
        support_count(m, r, t * m + i) == t * r + if i < r { i } else { r },
    decreases t, i,
{
    if i > 0 {
        lemma_support_block(m, r, t, i - 1);
        lemma_block_split(t, i - 1, m);
        assert(t * m + i - 1 == t * m + (i - 1));
    } else if t > 0 {
        lemma_support_block(m, r, t - 1, m);
        assert((t - 1) * m + m == t * m + 0) by (nonlinear_arith);
        assert((t - 1) * r + r == t * r) by (nonlinear_arith);
    } else {
        assert(t * m + i == 0) by (nonlinear_arith)
            requires
                t == 0,
                i == 0,
        ;
        assert(t * r == 0) by (nonlinear_arith)
            requires
                t == 0,
        ;
    }
}

/// The global monomial space has dimension `k`: exactly `k` exponents up to the degree
/// bound `D` have their residue modulo `m` below `r`.
pub proof fn lemma_dimension(p: Parameters, rg: Option<usize>)
    requires
        params_valid(p, rg),
    ensures
        support_count(p.m as int, p.r as int, p.spec_degree() + 1) == p.k,
{
    lemma_degree_facts(p, rg);
    let m = p.m as int;
    let r = p.r as int;
    let a = p.spec_a();
    let b = p.spec_b();
    if b == 0 {
        lemma_support_block(m, r, a - 1, r);
        assert((a - 1) * r + r == a * r) by (nonlinear_arith);
    } else {
        lemma_support_block(m, r, a, b);
    }
}

/// The source part is linear in the message.
proof fn lemma_source_part_linear(inst: Instance, m1: Seq<u64>, m2: Seq<u64>, c: int, power: int, n: int)
    requires
        inst.wf(),
        inst.valid_message(m1),
        inst.valid_message(m2),
        0 <= c,
        0 <= power,
        0 <= n <= inst.spec_params().spec_a(),
    ensures
        inst.source_part(combine(m1, m2, c, inst.spec_field().modulus()), power, n) % inst.spec_field().modulus()
            == (inst.source_part(m1, power, n) + c * inst.source_part(m2, power, n)) % inst.spec_field().modulus(),
    decreases n,
{
    inst.lemma_tables();
    let q = inst.spec_field().modulus();
    let p = inst.spec_params();
    let mix = combine(m1, m2, c, q);
    if n == 0 {
        assert(c * 0 == 0);
    } else {
        lemma_source_part_linear(inst, m1, m2, c, power, n - 1);
        lemma_degree_facts(p, inst.spec_residual_group());
        let m = p.m as int;
        let r = p.r as int;
        let t = power / m;
        let i = power % m;
        let l = inst.spec_lagrange()[n - 1];
        let idx = (n - 1) * r + i;
        let s1 = inst.source_part(m1, power, n - 1);
        let s2 = inst.source_part(m2, power, n - 1);
        let sx = inst.source_part(mix, power, n - 1);
        if i < r && t < l.len() {
            lemma_mod_bound(power, m);
            assert(idx < p.spec_a() * r) by (nonlinear_arith)
                requires
                    idx == (n - 1) * r + i,
                    1 <= n <= p.spec_a(),
                    0 <= i < r,
            ;
            let lt = l[t] as int;
            let x1 = m1[idx] as int;
            let x2 = m2[idx] as int;
            let xm = mix[idx] as int;
            assert(xm == ((x1 + (c * x2) % q) % q));
            assert(xm % q == (x1 + c * x2) % q) by {
                lemma_mod_bound(x1 + (c * x2) % q, q);
                lemma_mod_twice(x1 + (c * x2) % q, q);
                lemma_add_mod_noop(x1, c * x2, q);
                lemma_mod_twice(c * x2, q);
                lemma_add_mod_noop(x1, (c * x2) % q, q);
            }
            lemma_mul_congruent(lt, lt, xm, x1 + c * x2, q);
            lemma_add_congruent(sx, s1 + c * s2, lt * xm, lt * (x1 + c * x2), q);
            assert((s1 + c * s2) + lt * (x1 + c * x2) == (s1 + lt * x1) + c * (s2 + lt * x2)) by (nonlinear_arith);
        } else {
            assert(c * s2 == c * s2);
        }
    }
}

/// The encoding is linear: encoding `m1 + c m2` with residual `e1 + c e2` gives
/// `f1 + c f2`, coefficient by coefficient modulo `q`.
pub proof fn lemma_encode_linear(inst: Instance, m1: Seq<u64>, m2: Seq<u64>, e1: Seq<u64>, e2: Seq<u64>, c: int)
    requires
        inst.wf(),
        inst.valid_message(m1),
        inst.valid_message(m2),
        e1.len() == e2.len(),
        0 <= c,
    ensures
        ({
            let q = inst.spec_field().modulus();
            let f = inst.spec_encode(combine(m1, m2, c, q), combine(e1, e2, c, q));
            let f1 = inst.spec_encode(m1, e1);
            let f2 = inst.spec_encode(m2, e2);
            &&& f.len() == f1.len()
            &&& forall|k: int| 0 <= k < f.len() ==> #[trigger] f[k] as int == (f1[k] + c * f2[k]) % q
        }),
{
    inst.lemma_tables();
    let q = inst.spec_field().modulus();
    let p = inst.spec_params();
    let f = inst.spec_encode(combine(m1, m2, c, q), combine(e1, e2, c, q));
    let f1 = inst.spec_encode(m1, e1);
    let f2 = inst.spec_encode(m2, e2);
    lemma_degree_facts(p, inst.spec_residual_group());
    assert forall|k: int| 0 <= k < f.len() implies #[trigger] f[k] as int == (f1[k] + c * f2[k]) % q by {
        let a = p.spec_a();
        lemma_source_part_linear(inst, m1, m2, c, k, a);
        let m = p.m as int;
        let t = k / m;
        let i = k % m;
        let bv = inst.spec_vanishing();
        let ex = combine(e1, e2, c, q);
        let r1 = inst.residual_part(e1, k);
        let r2 = inst.residual_part(e2, k);
        let rx = inst.residual_part(ex, k);
        assert(rx % q == (r1 + c * r2) % q) by {
            if i < e1.len() && t < bv.len() {
                lemma_mod_bound(k, m);
                let x1 = e1[i] as int;
                let x2 = e2[i] as int;
                let xm = ex[i] as int;
                assert(xm % q == (x1 + c * x2) % q) by {
                    lemma_mod_bound(x1 + (c * x2) % q, q);
                    lemma_mod_twice(x1 + (c * x2) % q, q);
                    lemma_add_mod_noop(x1, c * x2, q);
                    lemma_mod_twice(c * x2, q);
                    lemma_add_mod_noop(x1, (c * x2) % q, q);
                }
                let bt = bv[t] as int;
                lemma_mul_congruent(bt, bt, xm, x1 + c * x2, q);
                assert(bt * (x1 + c * x2) == bt * x1 + c * (bt * x2)) by (nonlinear_arith);
            } else {
                assert(c * 0 == 0);
            }
        }
        let sx = inst.source_part(combine(m1, m2, c, q), k, a);
        let s1 = inst.source_part(m1, k, a);
        let s2 = inst.source_part(m2, k, a);
        lemma_add_congruent(sx, s1 + c * s2, rx, r1 + c * r2, q);
        let v1 = s1 + r1;
        let v2 = s2 + r2;
        assert((s1 + c * s2) + (r1 + c * r2) == v1 + c * v2) by (nonlinear_arith)
            requires
                v1 == s1 + r1,
                v2 == s2 + r2,
        ;
        lemma_mod_bound(sx + rx, q);
        lemma_mod_bound(v1, q);
        lemma_mod_bound(v2, q);
        lemma_mod_twice(sx + rx, q);
        lemma_mod_twice(v1, q);
        lemma_mod_twice(v2, q);
        lemma_mul_congruent(c, c, f2[k] as int, v2, q);
        lemma_add_congruent(f1[k] as int, v1, c * f2[k], c * v2, q);
        lemma_mod_twice(v1 + c * v2, q);
    }
}

/// Dropping the constant coefficient shifts every column by one position.
proof fn lemma_column_shift(f: Seq<u64>, i: int, m: int)
    requires
        m > 0,
        0 <= i,
        f.len() >= 1,
    ensures
        column(f.drop_first(), i, m) == column(f, i + 1, m),
    decreases f.len() - i,
{
    let g = f.drop_first();
    if i + 1 < f.len() && i + m < g.len() {
        lemma_column_shift(f, i + m, m);
        assert(i + m + 1 == i + 1 + m);
    }
    if i < g.len() {
        assert(g[i] == f[i + 1]);
    }
}

/// `sum_{i < n} x^i col_i(X)` with `X = x^m`, over the integers.
pub open spec fn coset_sum(f: Seq<u64>, m: int, x: int, n: int) -> int
    decreases n,
{
    if n <= 0 {
        0
    } else {
        coset_sum(f, m, x, n - 1) + pow(x, (n - 1) as nat) * poly_value(column(f, n - 1, m), pow(x, m as nat))
    }
}

/// Multiplying the sum over the columns of `f` without its constant coefficient by `x`
/// shifts it by one column.
proof fn lemma_coset_sum_shift(f: Seq<u64>, m: int, x: int, n: int)
    requires
        m > 0,
        f.len() >= 1,
        n >= 0,
    ensures
        x * coset_sum(f.drop_first(), m, x, n) == coset_sum(f, m, x, n + 1) - poly_value(column(f, 0, m), pow(x, m as nat)),
    decreases n,
{
    let big = pow(x, m as nat);
    if n == 0 {
        lemma_pow0(x);
        assert(x * 0 == 0);
        assert(1 * poly_value(column(f, 0, m), big) == poly_value(column(f, 0, m), big));
        assert(coset_sum(f.drop_first(), m, x, 0) == 0);
        assert(coset_sum(f, m, x, 0) == 0);
        assert(coset_sum(f, m, x, 1) == coset_sum(f, m, x, 0) + pow(x, 0) * poly_value(column(f, 0, m), big));
    } else {
        lemma_coset_sum_shift(f, m, x, n - 1);
        lemma_column_shift(f, n - 1, m);
        let a = poly_value(column(f, n, m), big);
        let s = coset_sum(f.drop_first(), m, x, n - 1);
        let p = pow(x, (n - 1) as nat);
        lemma_pow_adds(x, 1, (n - 1) as nat);
        lemma_pow1(x);
        assert((1 + (n - 1)) as nat == n as nat);
        assert(pow(x, n as nat) == x * p);
        assert(coset_sum(f.drop_first(), m, x, n) == s + p * a);
        assert(coset_sum(f, m, x, n + 1) == coset_sum(f, m, x, n) + pow(x, n as nat) * a);
        assert(x * (s + p * a) == x * s + (x * p) * a) by (nonlinear_arith);
        assert(x * s == coset_sum(f, m, x, n) - poly_value(column(f, 0, m), big));
    }
}

/// A polynomial is the sum over its columns: `f(x) = sum_{i < m} x^i col_i(x^m)`.
pub proof fn lemma_value_by_columns(f: Seq<u64>, m: int, x: int)
    requires
        m > 0,
    ensures
        poly_value(f, x) == coset_sum(f, m, x, m),
    decreases f.len(),
{
    let big = pow(x, m as nat);
    if f.len() == 0 {
        lemma_empty_columns(f, m, x, m);
    } else {
        let g = f.drop_first();
        lemma_value_by_columns(g, m, x);
        lemma_coset_sum_shift(f, m, x, m);
        let c0 = column(f, 0, m);
        assert(c0.drop_first() =~= column(f, m, m));
        assert(poly_value(c0, big) == f[0] + big * poly_value(column(f, m, m), big));
    }
}

/// Every column of the empty sequence is empty.
proof fn lemma_empty_columns(f: Seq<u64>, m: int, x: int, n: int)
    requires
        m > 0,
        f.len() == 0,
        n >= 0,
    ensures
        coset_sum(f, m, x, n) == 0,
    decreases n,
{
    if n > 0 {
        lemma_empty_columns(f, m, x, n - 1);
        assert(column(f, n - 1, m).len() == 0);
        assert(pow(x, (n - 1) as nat) * 0 == 0);
    }
}

/// Congruent arguments give congruent values.
proof fn lemma_value_congruent_point(c: Seq<u64>, y1: int, y2: int, q: int)
    requires
        q > 0,
        y1 % q == y2 % q,
    ensures
        poly_value(c, y1) % q == poly_value(c, y2) % q,
    decreases c.len(),
{
    if c.len() > 0 {
        lemma_value_congruent_point(c.drop_first(), y1, y2, q);
        lemma_mul_congruent(y1, y2, poly_value(c.drop_first(), y1), poly_value(c.drop_first(), y2), q);
        lemma_add_congruent(c[0] as int, c[0] as int, y1 * poly_value(c.drop_first(), y1), y2 * poly_value(
            c.drop_first(),
            y2,
        ), q);
    }
}

/// `sum_{i < n} x^i fold_i`: the remainder of `f` modulo `X^m - gamma`, evaluated at `x`.
pub open spec fn remainder_value(f: Seq<u64>, m: int, gamma: int, x: int, n: int) -> int
    decreases n,
{
    if n <= 0 {
        0
    } else {
        remainder_value(f, m, gamma, x, n - 1) + pow(x, (n - 1) as nat) * fold_coefficient(f, n - 1, m, gamma)
    }
}

/// The remainder of `f` modulo `X^m - gamma` agrees with `f` at every point of the coset
/// `x^m = gamma`, modulo `q`.
pub proof fn lemma_remainder_on_coset(f: Seq<u64>, m: int, gamma: int, x: int, q: int)
    requires
        m > 0,
        q > 0,
        pow(x, m as nat) % q == gamma % q,
    ensures
        poly_value(f, x) % q == remainder_value(f, m, gamma, x, m) % q,
{
    lemma_value_by_columns(f, m, x);
    lemma_remainder_sums(f, m, gamma, x, q, m);
}

/// Column by column, the sum at `x^m` and the remainder agree modulo `q`.
proof fn lemma_remainder_sums(f: Seq<u64>, m: int, gamma: int, x: int, q: int, n: int)
    requires
        m > 0,
        q > 0,
        n >= 0,
        pow(x, m as nat) % q == gamma % q,
    ensures
        coset_sum(f, m, x, n) % q == remainder_value(f, m, gamma, x, n) % q,
    decreases n,
{
    if n > 0 {
        lemma_remainder_sums(f, m, gamma, x, q, n - 1);
        let col = column(f, n - 1, m);
        lemma_fold_column(f, n - 1, m, gamma);
        lemma_value_congruent_point(col, pow(x, m as nat), gamma, q);
        let px = pow(x, (n - 1) as nat);
        lemma_mul_congruent(px, px, poly_value(col, pow(x, m as nat)), fold_coefficient(f, n - 1, m, gamma), q);
        lemma_add_congruent(
            coset_sum(f, m, x, n - 1),
            remainder_value(f, m, gamma, x, n - 1),
            px * poly_value(col, pow(x, m as nat)),
            px * fold_coefficient(f, n - 1, m, gamma),
            q,
        );
    }
}

} // verus!
