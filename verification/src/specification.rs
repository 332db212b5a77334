//! An independent checker for the encoding over small prime fields: exact `u64`
//! arithmetic modulo a prime `q <= 65537`, Lagrange interpolation, the
//! source/residual encoding into one global polynomial, its decoding by
//! division by `X^m - gamma`, and the residual-conversion mutation condition.
use crate::error::{require, Error, Result};
use vstd::arithmetic::div_mod::*;
use vstd::arithmetic::mul::*;
use vstd::arithmetic::power::*;
use vstd::prelude::*;

verus! {

/// `q` is prime: it is at least 2 and no integer strictly between 1 and `q` divides it.
pub open spec fn spec_is_prime(q: int) -> bool {
    q >= 2 && forall|d: int| 2 <= d < q ==> #[trigger] (q % d) != 0
}

/// No `d` with `2 <= d` and `d * d <= q` divides `q` (trial division up to the square root).
pub open spec fn no_small_divisor(q: int) -> bool {
    forall|d: int| 2 <= d && #[trigger] (d * d) <= q ==> q % d != 0
}

/// Trial division up to the square root decides primality.
pub proof fn lemma_trial_division(q: int)
    requires
        q >= 2,
    ensures
        no_small_divisor(q) <==> spec_is_prime(q),
{
    if no_small_divisor(q) {
        assert forall|d: int| 2 <= d < q implies #[trigger] (q % d) != 0 by {
            if q % d == 0 {
                lemma_fundamental_div_mod(q, d);
                let e = q / d;
                assert(q == d * e);
                if d * d <= q {
                    assert(q % d != 0);
                } else {
                    assert(e >= 2) by (nonlinear_arith)
                        requires
                            q == d * e,
                            d < q,
                            d >= 2,
                    ;
                    assert(e * e <= q) by (nonlinear_arith)
                        requires
                            q == d * e,
                            d * d > q,
                            e >= 2,
                            d >= 2,
                    ;
                    assert(q % e == 0) by {
                        lemma_mod_multiples_basic(d, e);
                        lemma_mul_is_commutative(d, e);
                    }
                    assert(q % e != 0);
                }
            }
        }
    }
    if spec_is_prime(q) {
        assert forall|d: int| 2 <= d && #[trigger] (d * d) <= q implies q % d != 0 by {
            if d >= q {
                assert(d * d >= q * d) by (nonlinear_arith)
                    requires
                        d >= q,
                        d >= 2,
                ;
                assert(q * d > q) by (nonlinear_arith)
                    requires
                        d >= 2,
                        q >= 2,
                ;
            }
        }
    }
}

/// `a` and `b` agree modulo `q`.
pub open spec fn congruent(a: int, b: int, q: int) -> bool {
    a % q == b % q
}

/// One squaring step of square-and-multiply keeps `result * base^e` fixed modulo `q`.
proof fn lemma_pow_step(r: int, b: int, e: nat, q: int)
    requires
        q > 0,
        e > 0,
    ensures
        e % 2 == 1 ==> ((r * b) % q) * pow((b * b) % q, e / 2) % q == (r * pow(b, e)) % q,
        e % 2 == 0 ==> r * pow((b * b) % q, e / 2) % q == (r * pow(b, e)) % q,
{
    let h = e / 2;
    lemma_pow_multiplies(b, 2, h);
    lemma_square_is_pow2(b);
    assert(pow(b, 2) == b * b) by {
        reveal(pow);
        assert(pow(b, 1) == b * pow(b, 0));
    }
    assert(pow(b * b, h) == pow(b, 2 * h));
    lemma_pow_mod_noop(b * b, h, q);
    if e % 2 == 1 {
        assert(e == 1 + 2 * h);
        lemma_pow_adds(b, 1, 2 * h);
        lemma_pow1(b);
        assert(pow(b, e) == b * pow(b * b, h));
        lemma_mul_mod_noop_left(r * b, pow((b * b) % q, h), q);
        lemma_mul_mod_noop_right(r * b, pow((b * b) % q, h), q);
        lemma_mul_mod_noop_right(r * b, pow(b * b, h), q);
        lemma_mul_is_associative(r, b, pow(b * b, h));
    } else {
        assert(e == 2 * h);
        lemma_mul_mod_noop_right(r, pow((b * b) % q, h), q);
        lemma_mul_mod_noop_right(r, pow(b * b, h), q);
    }
}

/// Arithmetic modulo a prime `q` with `3 <= q <= 65537`, on canonical residues.
#[derive(Clone, Copy, Debug)]
pub struct Field {
    q: u64,
}

impl Field {
    /// The modulus.
    pub closed spec fn modulus(self) -> int {
        self.q as int
    }

    /// The modulus is a prime between 3 and 65537.
    pub closed spec fn wf(self) -> bool {
        3 <= self.q <= 65537 && spec_is_prime(self.q as int)
    }

    /// What a valid field guarantees of its modulus.
    pub proof fn lemma_wf(self)
        requires
            self.wf(),
        ensures
            3 <= self.modulus() <= 65537,
            spec_is_prime(self.modulus()),
    {
    }

    /// The field of order `q`, for a prime `q` between 3 and 65537.
    pub fn new(q: u64) -> (res: Result<Self>)
        ensures
            res is Ok <==> (3 <= q <= 65537 && spec_is_prime(q as int)),
            res matches Ok(f) ==> f.wf() && f.modulus() == q && f == field_of(q),
    {
        let mut prime = 3 <= q && q <= 65537;
        if prime {
            let mut d: u64 = 2;
            while d * d <= q
                invariant
                    3 <= q <= 65537,
                    2 <= d <= 257,
                    d * d <= 66049,
                    (d - 1) * (d - 1) <= q,
                    prime <==> (forall|e: int| 2 <= e < d ==> #[trigger] ((q as int) % e) != 0),
                decreases 300 - d,
            {
                if q % d == 0 {
                    prime = false;
                }
                assert(d + 1 <= 257) by (nonlinear_arith)
                    requires
                        d * d <= q,
                        q <= 65537,
                ;
                d = d + 1;
                assert(d * d <= 66049) by (nonlinear_arith)
                    requires
                        d <= 257,
                ;
            }
            proof {
                lemma_trial_division(q as int);
                if prime {
                    assert forall|e: int| 2 <= e && #[trigger] (e * e) <= q implies (q as int) % e
                        != 0 by {
                        if e >= d {
                            assert(e * e >= d * d) by (nonlinear_arith)
                                requires
                                    e >= d,
                                    d >= 2,
                            ;
                        }
                    }
                } else {
                    let e = choose|e: int| 2 <= e < d && #[trigger] ((q as int) % e) == 0;
                    assert(e * e <= q) by (nonlinear_arith)
                        requires
                            e < d,
                            (d - 1) * (d - 1) <= q,
                            e >= 2,
                    ;
                }
            }
        }
        require(
            prime,
            "the specification checker requires a prime field of order 3 through 65537",
        )?;
        Ok(Field { q })
    }

    /// The modulus as a machine integer.
    pub fn q(self) -> (q: u64)
        ensures
            q == self.modulus(),
    {
        self.q
    }

    /// `(a + b) mod q`.
    pub fn add(self, a: u64, b: u64) -> (res: u64)
        requires
            self.wf(),
            a < self.modulus(),
            b < self.modulus(),
        ensures
            res == (a + b) % self.modulus(),
            res < self.modulus(),
    {
        (a + b) % self.q
    }

    /// `(a - b) mod q`.
    pub fn sub(self, a: u64, b: u64) -> (res: u64)
        requires
            self.wf(),
            a < self.modulus(),
            b < self.modulus(),
        ensures
            res == (a - b) % self.modulus(),
            res < self.modulus(),
    {
        proof {
            lemma_mod_add_multiples_vanish(a - b, self.q as int);
        }
        (a + self.q - b) % self.q
    }

    /// `(a * b) mod q`.
    pub fn mul(self, a: u64, b: u64) -> (res: u64)
        requires
            self.wf(),
            a < self.modulus(),
            b < self.modulus(),
        ensures
            res == (a * b) % self.modulus(),
            res < self.modulus(),
    {
        assert(a * b <= 65537 * 65537) by (nonlinear_arith)
            requires
                a < 65537,
                b < 65537,
        ;
        a * b % self.q
    }

    /// `a^exponent mod q` by square-and-multiply.
    pub fn pow(self, a: u64, exponent: usize) -> (res: u64)
        requires
            self.wf(),
            a < self.modulus(),
        ensures
            res == pow(a as int, exponent as nat) % self.modulus(),
            res < self.modulus(),
    {
        let ghost q = self.q as int;
        let mut result: u64 = 1;
        let mut base = a;
        let mut e = exponent;
        proof {
            lemma_pow0(a as int);
            lemma_small_mod(1, q as nat);
        }
        while e != 0
            invariant
                self.wf(),
                q == self.modulus(),
                base < q,
                result < q,
                (result * pow(base as int, e as nat)) % q == pow(a as int, exponent as nat) % q,
            decreases e,
        {
            proof {
                lemma_pow_step(result as int, base as int, e as nat, q);
            }
            if e % 2 != 0 {
                result = self.mul(result, base);
            }
            base = self.mul(base, base);
            e = e / 2;
        }
        proof {
            lemma_pow0(base as int);
            lemma_small_mod(result as nat, q as nat);
        }
        result
    }

    /// The multiplicative inverse of a nonzero canonical residue, by the extended
    /// Euclidean algorithm.
    pub fn inverse(self, value: u64) -> (res: Result<u64>)
        requires
            self.wf(),
        ensures
            res is Ok <==> (0 < value < self.modulus()),
            res matches Ok(x) ==> x < self.modulus() && (value * x) % self.modulus() == 1,
    {
        ensure(value != 0 && value < self.q, "inverse of zero or noncanonical field element")?;
        let ghost q = self.q as int;
        let mut r0: u64 = self.q;
        let mut r1: u64 = value;
        let mut t0: u64 = 0;
        let mut t1: u64 = 1;
        proof {
            lemma_small_mod(value as nat, q as nat);
            lemma_small_mod(0, q as nat);
            lemma_mod_self_0(q);
        }
        while r1 != 0
            invariant
                self.wf(),
                q == self.modulus(),
                0 < value < q,
                0 < r0 <= q,
                r1 < q,
                r0 == q ==> r1 == value,
                t0 < q,
                t1 < q,
                (t0 * value) % q == (r0 as int) % q,
                (t1 * value) % q == (r1 as int) % q,
                forall|d: int|
                    d > 0 && #[trigger] (r0 as int % d) == 0 && (r1 as int) % d == 0 ==> q % d == 0
                        && (value as int) % d == 0,
            decreases r1,
        {
            let quo = r0 / r1;
            let rem = r0 % r1;
            let quo_r = quo % self.q;
            proof {
                lemma_fundamental_div_mod(r0 as int, r1 as int);
            }
            let qt = self.mul(quo_r, t1);
            let t2 = self.sub(t0, qt);
            proof {
                let tq = (quo_r * t1) % q;
                lemma_mul_mod_noop_left(quo as int, t1 as int, q);
                // t2 * value == (t0 - quo * t1) * value == r0 - quo * r1 == rem (mod q)
                assert((t2 * value) % q == (rem as int) % q) by {
                    lemma_mul_mod_noop_left(t0 - tq, value as int, q);
                    lemma_mul_is_distributive_sub_other_way(value as int, t0 as int, tq);
                    lemma_sub_mod_noop(t0 * value, tq * value, q);
                    lemma_mul_mod_noop_left(quo * t1, value as int, q);
                    lemma_mul_is_associative(quo as int, t1 as int, value as int);
                    lemma_mul_mod_noop_right(quo as int, t1 * value, q);
                    lemma_mul_mod_noop_right(quo as int, r1 as int, q);
                    lemma_sub_mod_noop(r0 as int, quo * r1, q);
                    lemma_mod_twice(t0 * value - tq * value, q);
                    assert(rem == r0 - quo * r1);
                    lemma_sub_mod_noop(t0 * value, quo * (t1 * value), q);
                    lemma_sub_mod_noop(t0 * value, quo * r1, q);
                    lemma_mod_twice(t0 - tq, q);
                }
                assert forall|d: int|
                    d > 0 && #[trigger] (r1 as int % d) == 0 && (rem as int) % d == 0 implies q % d
                    == 0 && (value as int) % d == 0 by {
                    lemma_fundamental_div_mod(r1 as int, d);
                    lemma_fundamental_div_mod(rem as int, d);
                    let a = r1 as int / d;
                    let b = rem as int / d;
                    assert(r0 == d * (quo * a + b)) by (nonlinear_arith)
                        requires
                            r1 == d * a,
                            rem == d * b,
                            r0 == quo * r1 + rem,
                    ;
                    lemma_mod_multiples_basic(quo * a + b, d);
                    lemma_mul_is_commutative(d, quo * a + b);
                }
                lemma_mod_bound(r0 as int, r1 as int);
            }
            r0 = r1;
            r1 = rem;
            t0 = t1;
            t1 = t2;
        }
        proof {
            // r0 divides both q and value, so it is 1.
            lemma_mod_self_0(r0 as int);
            lemma_small_mod(0, r0 as nat);
            assert(q % (r0 as int) == 0);
            assert(r0 == 1) by {
                if r0 >= 2 {
                    assert(r0 < q);
                    assert(q % (r0 as int) != 0);
                }
            }
            lemma_small_mod(1, q as nat);
            lemma_mul_is_commutative(t0 as int, value as int);
        }
        Ok(t0)
    }
}

impl Field {
    /// `d` is a prime divisor of `q - 1`, the order of the multiplicative group.
    pub open spec fn prime_factor(self, d: int) -> bool {
        2 <= d < self.modulus() && (self.modulus() - 1) % d == 0 && spec_is_prime(d)
    }

    /// `c^((q-1)/f) != 1` for every prime factor `f` of `q - 1`: the standard test
    /// that `c` generates the multiplicative group.
    pub open spec fn passes_generator_test(self, c: int) -> bool {
        forall|f: int|
            #![trigger self.prime_factor(f)]
            self.prime_factor(f) ==> pow(c, ((self.modulus() - 1) / f) as nat) % self.modulus()
                != 1
    }

    /// The least residue in `2..q` that passes the generator test.
    pub fn generator(self) -> (res: Result<u64>)
        requires
            self.wf(),
        ensures
            res matches Ok(g) ==> 2 <= g < self.modulus() && self.passes_generator_test(g as int)
                && forall|c: int| 2 <= c < g ==> !#[trigger] self.passes_generator_test(c),
            res is Err ==> forall|c: int|
                2 <= c < self.modulus() ==> !#[trigger] self.passes_generator_test(c),
    {
        let q = self.q;
        let mut factors: Vec<u64> = Vec::new();
        let mut d: u64 = 2;
        while d < q
            invariant
                self.wf(),
                q == self.modulus(),
                2 <= d <= q,
                forall|i: int| 0 <= i < factors.len() ==> #[trigger] self.prime_factor(factors[i] as int),
                forall|f: int| 2 <= f < d && self.prime_factor(f) ==> #[trigger] factors@.contains(f as u64),
            decreases q - d,
        {
            let ghost old = factors@;
            if (q - 1) % d == 0 {
                let mut prime = true;
                let mut p: u64 = 2;
                while p * p <= d
                    invariant
                        2 <= d < q <= 65537,
                        2 <= p <= 257,
                        p * p <= 66049,
                        (p - 1) * (p - 1) <= d,
                        prime <==> (forall|e: int| 2 <= e < p ==> #[trigger] ((d as int) % e) != 0),
                    decreases 300 - p,
                {
                    if d % p == 0 {
                        prime = false;
                    }
                    assert(p + 1 <= 257) by (nonlinear_arith)
                        requires
                            p * p <= d,
                            d <= 65537,
                    ;
                    p = p + 1;
                    assert(p * p <= 66049) by (nonlinear_arith)
                        requires
                            p <= 257,
                    ;
                }
                proof {
                    lemma_trial_division(d as int);
                    if prime {
                        assert forall|e: int| 2 <= e && #[trigger] (e * e) <= d implies (d as int)
                            % e != 0 by {
                            if e >= p {
                                assert(e * e >= p * p) by (nonlinear_arith)
                                    requires
                                        e >= p,
                                        p >= 2,
                                ;
                            }
                        }
                    } else {
                        let e = choose|e: int| 2 <= e < p && #[trigger] ((d as int) % e) == 0;
                        assert(e * e <= d) by (nonlinear_arith)
                            requires
                                e < p,
                                (p - 1) * (p - 1) <= d,
                                e >= 2,
                        ;
                    }
                }
                assert(prime <==> spec_is_prime(d as int));
                if prime {
                    factors.push(d);
                    assert(factors@[factors.len() - 1] == d);
                }
            }
            assert forall|f: int| 2 <= f < d + 1 && self.prime_factor(f) implies #[trigger] factors@.contains(f as u64) by {
                if f < d {
                    assert(old.contains(f as u64));
                    let k = choose|k: int| 0 <= k < old.len() && old[k] == f as u64;
                    assert(factors@[k] == f as u64);
                } else {
                    assert(factors@[factors.len() - 1] == d);
                }
            }
            d = d + 1;
        }
        let mut c: u64 = 2;
        while c < q
            invariant
                self.wf(),
                q == self.modulus(),
                2 <= c <= q,
                forall|i: int| 0 <= i < factors.len() ==> #[trigger] self.prime_factor(factors[i] as int),
                forall|f: int| self.prime_factor(f) ==> #[trigger] factors@.contains(f as u64),
                forall|x: int| 2 <= x < c ==> !#[trigger] self.passes_generator_test(x),
            decreases q - c,
        {
            let mut ok = true;
            let mut i: usize = 0;
            while i < factors.len()
                invariant
                    self.wf(),
                    q == self.modulus(),
                    2 <= c < q,
                    i <= factors.len(),
                    forall|k: int| 0 <= k < factors.len() ==> #[trigger] self.prime_factor(factors[k] as int),
                    ok <==> (forall|k: int| 0 <= k < i ==> pow(c as int, ((q as int - 1) / (#[trigger] factors[k] as int)) as nat) % (q as int) != 1),
                decreases factors.len() - i,
            {
                let f = factors[i];
                assert(self.prime_factor(f as int));
                if self.pow(c, ((q - 1) / f) as usize) == 1 {
                    ok = false;
                }
                i = i + 1;
            }
            if ok {
                assert forall|f: int| #![trigger self.prime_factor(f)] self.prime_factor(f) implies pow(c as int, ((self.modulus() - 1) / f) as nat) % self.modulus() != 1 by {
                    assert(factors@.contains(f as u64));
                    let k = choose|k: int| 0 <= k < factors.len() && factors@[k] == f as u64;
                    assert(factors[k] == f);
                }
                return Ok(c);
            }
            proof {
                assert(exists|k: int| 0 <= k < factors.len() && pow(c as int, ((q as int - 1) / (#[trigger] factors[k] as int)) as nat) % (q as int) == 1);
                let k = choose|k: int| 0 <= k < factors.len() && pow(c as int, ((q as int - 1) / (#[trigger] factors[k] as int)) as nat) % (q as int) == 1;
                assert(self.prime_factor(factors[k] as int));
                assert(!self.passes_generator_test(c as int));
            }
            c = c + 1;
        }
        Err(Error("no generator of the multiplicative group".to_owned()))
    }
}

/// The coefficient list `p` (lowest degree first) as a polynomial evaluated at `x`,
/// over the integers: `p[0] + p[1] x + ... + p[n-1] x^(n-1)`.
pub open spec fn poly_value(p: Seq<u64>, x: int) -> int
    decreases p.len(),
{
    if p.len() == 0 {
        0
    } else {
        p[0] + x * poly_value(p.drop_first(), x)
    }
}

/// All entries are canonical residues modulo `q`.
pub open spec fn all_below(s: Seq<u64>, q: int) -> bool {
    forall|i: int| 0 <= i < s.len() ==> #[trigger] s[i] < q
}

/// Horner evaluation modulo `q`.
pub fn evaluate(field: Field, polynomial: &[u64], x: u64) -> (res: u64)
    requires
        field.wf(),
        all_below(polynomial@, field.modulus()),
        x < field.modulus(),
    ensures
        res == poly_value(polynomial@, x as int) % field.modulus(),
        res < field.modulus(),
{
    let ghost q = field.modulus();
    let ghost p = polynomial@;
    let mut acc: u64 = 0;
    let mut i = polynomial.len();
    proof {
        assert(p.subrange(i as int, p.len() as int).len() == 0);
        lemma_small_mod(0, q as nat);
    }
    while i > 0
        invariant
            field.wf(),
            q == field.modulus(),
            p == polynomial@,
            all_below(p, q),
            x < q,
            i <= p.len(),
            acc < q,
            acc == poly_value(p.subrange(i as int, p.len() as int), x as int) % q,
        decreases i,
    {
        let ghost tail = p.subrange(i as int, p.len() as int);
        i = i - 1;
        let ghost cur = p.subrange(i as int, p.len() as int);
        assert(cur.drop_first() =~= tail);
        let prod = field.mul(acc, x);
        proof {
            lemma_mul_mod_noop_left(poly_value(tail, x as int), x as int, q);
            lemma_mul_is_commutative(poly_value(tail, x as int), x as int);
            lemma_add_mod_noop(x * poly_value(tail, x as int), p[i as int] as int, q);
            lemma_small_mod(p[i as int] as nat, q as nat);
            lemma_mod_twice(x * poly_value(tail, x as int), q);
        }
        acc = field.add(prod, polynomial[i]);
    }
    assert(p.subrange(0, p.len() as int) =~= p);
    acc
}

/// The coefficient `b[j]`, or 0 outside `b`.
pub open spec fn coef_at(b: Seq<u64>, j: int) -> int {
    if 0 <= j < b.len() {
        b[j] as int
    } else {
        0
    }
}

/// `sum_{i < n} a[i] * b[k - i]`: coefficient `k` of the product restricted to the
/// first `n` coefficients of `a`.
pub open spec fn conv_coef(a: Seq<u64>, b: Seq<u64>, k: int, n: int) -> int
    decreases n,
{
    if n <= 0 {
        0
    } else {
        conv_coef(a, b, k, n - 1) + a[n - 1] * coef_at(b, k - (n - 1))
    }
}

/// Schoolbook product of two nonempty coefficient lists modulo `q`.
pub fn multiply(field: Field, left: &[u64], right: &[u64]) -> (res: Vec<u64>)
    requires
        field.wf(),
        left.len() > 0 || right.len() > 0,
        left.len() + right.len() <= usize::MAX,
        all_below(left@, field.modulus()),
        all_below(right@, field.modulus()),
    ensures
        res@ == pmul(left@, right@, field.modulus()),
        res.len() == left.len() + right.len() - 1,
        all_below(res@, field.modulus()),
{
    let ghost q = field.modulus();
    let len = left.len() + right.len() - 1;
    let mut result: Vec<u64> = Vec::new();
    while result.len() < len
        invariant
            result.len() <= len,
            forall|k: int| 0 <= k < result.len() ==> #[trigger] result@[k] == 0,
        decreases len - result.len(),
    {
        result.push(0);
    }
    proof {
        lemma_small_mod(0, q as nat);
    }
    let mut i: usize = 0;
    while i < left.len()
        invariant
            field.wf(),
            q == field.modulus(),
            len == left.len() + right.len() - 1,
            result.len() == len,
            i <= left.len(),
            all_below(left@, q),
            all_below(right@, q),
            forall|k: int| 0 <= k < len ==> #[trigger] result@[k] == conv_coef(left@, right@, k, i as int) % q,
        decreases left.len() - i,
    {
        let mut j: usize = 0;
        while j < right.len()
            invariant
                field.wf(),
                q == field.modulus(),
                len == left.len() + right.len() - 1,
                result.len() == len,
                i < left.len(),
                j <= right.len(),
                all_below(left@, q),
                all_below(right@, q),
                forall|k: int|
                    0 <= k < len ==> #[trigger] result@[k] == (conv_coef(left@, right@, k, i as int) + (
                    if i <= k < i + j {
                        left@[i as int] * right@[k - i]
                    } else {
                        0
                    })) % q,
            decreases right.len() - j,
        {
            let prod = field.mul(left[i], right[j]);
            let idx = i + j;
            assert(result@[idx as int] < q) by {
                lemma_mod_bound(
                    conv_coef(left@, right@, idx as int, i as int) + (if i <= idx < i + j {
                        left@[i as int] * right@[idx - i]
                    } else {
                        0
                    }),
                    q,
                );
            }
            let sum = field.add(result[idx], prod);
            proof {
                let c = conv_coef(left@, right@, idx as int, i as int);
                assert(!(i <= idx < i + j));
                lemma_add_mod_noop(c, left@[i as int] * right@[j as int], q);
                lemma_mod_twice(c, q);
                lemma_mod_twice(left@[i as int] * right@[j as int], q);
                lemma_add_mod_noop(c % q, (left@[i as int] * right@[j as int]) % q, q);
            }
            result.set(idx, sum);
            j = j + 1;
        }
        assert forall|k: int| 0 <= k < len implies #[trigger] result@[k] == conv_coef(left@, right@, k, i + 1) % q by {
            assert(conv_coef(left@, right@, k, i + 1) == conv_coef(left@, right@, k, i as int)
                + left@[i as int] * coef_at(right@, k - i));
        }
        i = i + 1;
    }
    assert forall|k: int| 0 <= k < len implies #[trigger] result@[k] < q by {
        lemma_mod_bound(conv_coef(left@, right@, k, left.len() as int), q);
    }
    assert(result@ =~= pmul(left@, right@, q));
    result
}

/// The product of two coefficient lists, reduced modulo `q`.
pub open spec fn pmul(a: Seq<u64>, b: Seq<u64>, q: int) -> Seq<u64> {
    Seq::new(
        (a.len() + b.len() - 1) as nat,
        |k: int| (conv_coef(a, b, k, a.len() as int) % q) as u64,
    )
}

/// `a + w b` coefficientwise modulo `q`, as canonical residues.
pub open spec fn combine(a: Seq<u64>, b: Seq<u64>, w: int, q: int) -> Seq<u64> {
    Seq::new(a.len(), |k: int| ((a[k] + (w * b[k]) % q) % q) as u64)
}

/// `prod_{j < J, j != i} (y - xs[j])`: the Lagrange basis numerator of point `i` over the
/// first `J` points.
pub open spec fn basis_product(xs: Seq<u64>, i: int, count: int, y: int) -> int
    decreases count,
{
    if count <= 0 {
        1
    } else {
        basis_product(xs, i, count - 1, y) * if count - 1 == i {
            1
        } else {
            y - xs[count - 1]
        }
    }
}

/// Congruent factors give congruent products.
pub proof fn lemma_mul_congruent(a: int, b: int, c: int, d: int, q: int)
    requires
        q > 0,
        a % q == b % q,
        c % q == d % q,
    ensures
        (a * c) % q == (b * d) % q,
{
    lemma_mul_mod_noop_general(a, c, q);
    lemma_mul_mod_noop_general(b, d, q);
}

/// Congruent terms give congruent sums.
pub proof fn lemma_add_congruent(a: int, b: int, c: int, d: int, q: int)
    requires
        q > 0,
        a % q == b % q,
        c % q == d % q,
    ensures
        (a + c) % q == (b + d) % q,
{
    lemma_add_mod_noop(a, c, q);
    lemma_add_mod_noop(b, d, q);
}

/// Evaluation is linear: `combine(a, b, w)` evaluates to `a(y) + w b(y)` modulo `q`.
proof fn lemma_value_combine(a: Seq<u64>, b: Seq<u64>, w: int, q: int, y: int)
    requires
        0 < q <= 65537,
        a.len() == b.len(),
    ensures
        poly_value(combine(a, b, w, q), y) % q == (poly_value(a, y) + w * poly_value(b, y)) % q,
    decreases a.len(),
{
    let c = combine(a, b, w, q);
    if a.len() == 0 {
        assert(w * 0 == 0) by (nonlinear_arith);
        lemma_small_mod(0, q as nat);
    } else {
        let a1 = a.drop_first();
        let b1 = b.drop_first();
        assert(c.drop_first() =~= combine(a1, b1, w, q));
        lemma_value_combine(a1, b1, w, q, y);
        let pc = poly_value(c.drop_first(), y);
        let pa = poly_value(a1, y);
        let pb = poly_value(b1, y);
        lemma_mod_bound(w * b[0], q);
        lemma_mod_bound(a[0] + (w * b[0]) % q, q);
        assert(c[0] == (a[0] + (w * b[0]) % q) % q);
        assert((a[0] + (w * b[0]) % q) % q == (a[0] + w * b[0]) % q) by {
            lemma_add_mod_noop(a[0] as int, w * b[0], q);
            lemma_mod_twice(w * b[0], q);
            lemma_add_mod_noop(a[0] as int, (w * b[0]) % q, q);
        }
        lemma_mod_twice(a[0] + w * b[0], q);
        assert((c[0] as int) % q == (a[0] + w * b[0]) % q);
        lemma_mul_congruent(y, y, pc, pa + w * pb, q);
        lemma_add_congruent(c[0] as int, a[0] + w * b[0], y * pc, y * (pa + w * pb), q);
        assert((a[0] + w * b[0]) + y * (pa + w * pb) == (a[0] + y * pa) + w * (b[0] + y * pb))
            by (nonlinear_arith);
    }
}

/// A trailing zero coefficient does not change the value.
pub proof fn lemma_value_push_zero(p: Seq<u64>, y: int)
    ensures
        poly_value(p.push(0), y) == poly_value(p, y),
    decreases p.len(),
{
    if p.len() == 0 {
        assert(p.push(0).drop_first() =~= Seq::<u64>::empty());
        assert(poly_value(Seq::<u64>::empty(), y) == 0);
        assert(y * 0 == 0) by (nonlinear_arith);
        assert(p.push(0)[0] == 0);
    } else {
        assert(p.push(0)[0] == p[0]);
        assert(p.push(0).drop_first() =~= p.drop_first().push(0));
        lemma_value_push_zero(p.drop_first(), y);
    }
}

/// The all-zero coefficient list is the zero polynomial.
pub proof fn lemma_value_zeros(p: Seq<u64>, y: int)
    requires
        forall|k: int| 0 <= k < p.len() ==> #[trigger] p[k] == 0,
    ensures
        poly_value(p, y) == 0,
    decreases p.len(),
{
    if p.len() > 0 {
        lemma_value_zeros(p.drop_first(), y);
        assert(y * 0 == 0) by (nonlinear_arith);
    }
}

/// The numerator of point `i` vanishes at every other point it has passed.
proof fn lemma_basis_vanishes(xs: Seq<u64>, i: int, count: int, k: int)
    requires
        0 <= k < count <= xs.len(),
        k != i,
    ensures
        basis_product(xs, i, count, xs[k] as int) == 0,
    decreases count,
{
    if k < count - 1 {
        lemma_basis_vanishes(xs, i, count - 1, k);
        let f = if count - 1 == i { 1 } else { xs[k] - xs[count - 1] };
        assert(0 * f == 0) by (nonlinear_arith);
    } else {
        let b = basis_product(xs, i, count - 1, xs[k] as int);
        assert(b * 0 == 0) by (nonlinear_arith);
    }
}

/// `basis` times `X - c`, modulo `q`.
fn times_linear(field: Field, basis: &Vec<u64>, c: u64) -> (res: Vec<u64>)
    requires
        field.wf(),
        c < field.modulus(),
        all_below(basis@, field.modulus()),
        basis.len() + 1 <= usize::MAX,
    ensures
        res.len() == basis.len() + 1,
        all_below(res@, field.modulus()),
        forall|y: int| #[trigger] poly_value(res@, y) % field.modulus() == ((y - c) * poly_value(basis@, y)) % field.modulus(),
{
    let ghost q = field.modulus();
    let w = field.sub(0, c);
    let ghost shifted = seq![0u64] + basis@;
    let ghost padded = basis@.push(0);
    let n = basis.len() + 1;
    let mut res: Vec<u64> = Vec::new();
    let mut k: usize = 0;
    while k < n
        invariant
            field.wf(),
            q == field.modulus(),
            n == basis.len() + 1,
            w < q,
            all_below(basis@, q),
            shifted == seq![0u64] + basis@,
            padded == basis@.push(0),
            k <= n,
            res.len() == k,
            forall|t: int| 0 <= t < k ==> #[trigger] res@[t] == combine(shifted, padded, w as int, q)[t],
            all_below(res@, q),
        decreases n - k,
    {
        let a: u64 = if k == 0 {
            0
        } else {
            basis[k - 1]
        };
        let b: u64 = if k + 1 == n {
            0
        } else {
            basis[k]
        };
        assert(a == shifted[k as int]);
        assert(b == padded[k as int]);
        let t = field.mul(w, b);
        let v = field.add(a, t);
        res.push(v);
        k = k + 1;
    }
    proof {
        assert(res@ =~= combine(shifted, padded, w as int, q));
        assert(shifted.drop_first() =~= basis@);
        assert forall|y: int| #[trigger] poly_value(res@, y) % q == ((y - c) * poly_value(basis@, y)) % q by {
            lemma_value_combine(shifted, padded, w as int, q, y);
            lemma_value_push_zero(basis@, y);
            let pb = poly_value(basis@, y);
            assert(poly_value(shifted, y) == 0 + y * pb);
            assert(y * pb + w * pb == (y + w) * pb) by (nonlinear_arith);
            assert((y + w) % q == (y - c) % q) by {
                lemma_add_mod_noop(y, w as int, q);
                lemma_add_mod_noop(y, 0 - c, q);
                lemma_mod_twice(0 - c, q);
            }
            lemma_mul_congruent(y + w, y - c, pb, pb, q);
        }
    }
    res
}

/// The interpolant of degree below `xs.len()` through `(xs[i], ys[i])`, as coefficients
/// lowest degree first, built as the Lagrange combination of the basis numerators.
/// Coordinates must be distinct residues.
pub fn interpolate(field: Field, xs: &[u64], ys: &[u64]) -> (res: Result<Vec<u64>>)
    requires
        field.wf(),
        all_below(xs@, field.modulus()),
        all_below(ys@, field.modulus()),
        xs.len() + 2 <= usize::MAX,
    ensures
        res is Ok <==> (xs.len() > 0 && xs.len() == ys.len() && distinct(xs@)),
        res matches Ok(c) ==> c.len() == xs.len() && all_below(c@, field.modulus()),
        res matches Ok(c) ==> forall|k: int|
            0 <= k < xs.len() ==> #[trigger] poly_value(c@, xs@[k] as int) % field.modulus() == ys@[k],
{
    let ghost q = field.modulus();
    ensure(xs.len() != 0 && xs.len() == ys.len(), "invalid interpolation dimensions")?;
    let n = xs.len();
    let mut i: usize = 0;
    let mut unique = true;
    while i < n
        invariant
            n == xs.len(),
            i <= n,
            unique <==> distinct(xs@.subrange(0, i as int)),
        decreases n - i,
    {
        let mut j: usize = 0;
        let mut fresh = true;
        while j < i
            invariant
                n == xs.len(),
                j <= i < n,
                fresh <==> (forall|t: int| 0 <= t < j ==> xs@[t] != xs@[i as int]),
            decreases i - j,
        {
            if xs[j] == xs[i] {
                fresh = false;
            }
            j = j + 1;
        }
        proof {
            let pre = xs@.subrange(0, i as int);
            let next = xs@.subrange(0, i + 1);
            if unique && fresh {
                assert forall|a: int, b: int| 0 <= a < b < next.len() implies next[a] != next[b] by {
                    if b < i {
                        assert(pre[a] == next[a] && pre[b] == next[b]);
                    }
                }
            }
            if !(unique && fresh) {
                if !unique {
                    let (a, b) = choose|a: int, b: int| 0 <= a < b < pre.len() && pre[a] == pre[b];
                    assert(next[a] == next[b]);
                } else {
                    let t = choose|t: int| 0 <= t < j && xs@[t] == xs@[i as int];
                    assert(next[t] == next[i as int]);
                }
            }
        }
        unique = unique && fresh;
        i = i + 1;
    }
    assert(xs@.subrange(0, n as int) =~= xs@);
    ensure(unique, "duplicate interpolation coordinates")?;
    let mut result: Vec<u64> = Vec::new();
    while result.len() < n
        invariant
            result.len() <= n,
            forall|k: int| 0 <= k < result.len() ==> #[trigger] result@[k] == 0,
        decreases n - result.len(),
    {
        result.push(0);
    }
    proof {
        lemma_small_mod(0, q as nat);
        assert forall|k: int| 0 <= k < n implies #[trigger] poly_value(result@, xs@[k] as int) % q == 0 by {
            lemma_value_zeros(result@, xs@[k] as int);
        }
    }
    let mut i: usize = 0;
    while i < n
        invariant
            field.wf(),
            q == field.modulus(),
            n == xs.len(),
            n == ys.len(),
            n + 2 <= usize::MAX,
            distinct(xs@),
            all_below(xs@, q),
            all_below(ys@, q),
            i <= n,
            result.len() == n,
            all_below(result@, q),
            forall|k: int| 0 <= k < n ==> #[trigger] poly_value(result@, xs@[k] as int) % q == if k < i {
                ys@[k] as int
            } else {
                0
            },
        decreases n - i,
    {
        let mut basis: Vec<u64> = vec![1];
        let mut scale: u64 = 1;
        let mut j: usize = 0;
        proof {
            lemma_small_mod(1, q as nat);
            assert forall|k: int| 0 <= k < n implies #[trigger] poly_value(basis@, xs@[k] as int) % q
                == basis_product(xs@, i as int, 0, xs@[k] as int) % q by {
                assert(basis@.drop_first() =~= Seq::<u64>::empty());
                assert(poly_value(Seq::<u64>::empty(), xs@[k] as int) == 0);
                assert(xs@[k] * 0 == 0) by (nonlinear_arith);
                assert(basis@[0] == 1);
            }
        }
        while j < n
            invariant
                field.wf(),
                q == field.modulus(),
                n == xs.len(),
                n + 2 <= usize::MAX,
                distinct(xs@),
                all_below(xs@, q),
                i < n,
                j <= n,
                basis.len() == 1 + j - if i < j { 1int } else { 0int },
                all_below(basis@, q),
                scale < q,
                (scale * basis_product(xs@, i as int, j as int, xs@[i as int] as int)) % q == 1,
                forall|k: int| 0 <= k < n ==> #[trigger] poly_value(basis@, xs@[k] as int) % q
                    == basis_product(xs@, i as int, j as int, xs@[k] as int) % q,
            decreases n - j,
        {
            if j != i {
                let ghost before = basis@;
                let ghost bp = basis_product(xs@, i as int, j as int, xs@[i as int] as int);
                basis = times_linear(field, &basis, xs[j]);
                let d = field.sub(xs[i], xs[j]);
                proof {
                    if d == 0 {
                        lemma_mod_sub_eq(xs@[i as int] as int, xs@[j as int] as int, q);
                        if i < j {
                            assert(xs@[i as int] != xs@[j as int]);
                        } else {
                            assert(xs@[j as int] != xs@[i as int]);
                        }
                    }
                }
                let inv = field.inverse(d)?;
                let next = field.mul(scale, inv);
                proof {
                    let di = xs@[i as int] - xs@[j as int];
                    assert(basis_product(xs@, i as int, j + 1, xs@[i as int] as int) == bp * di);
                    assert((inv * di) % q == 1) by {
                        lemma_mod_twice(di, q);
                        lemma_small_mod(d as nat, q as nat);
                        lemma_mul_congruent(inv as int, inv as int, d as int, di, q);
                        assert(inv * d == d * inv) by (nonlinear_arith);
                    }
                    assert((next * (bp * di)) % q == 1) by {
                        lemma_mod_twice(scale * inv, q);
                        lemma_small_mod(next as nat, q as nat);
                        lemma_mul_congruent(next as int, scale * inv, bp * di, bp * di, q);
                        assert((scale * inv) * (bp * di) == (scale * bp) * (inv * di)) by (nonlinear_arith);
                        lemma_small_mod(1, q as nat);
                        assert((scale * bp) % q == 1);
                        lemma_mul_congruent(scale * bp, 1, inv * di, 1, q);
                    }
                    assert forall|k: int| 0 <= k < n implies #[trigger] poly_value(basis@, xs@[k] as int) % q
                        == basis_product(xs@, i as int, j + 1, xs@[k] as int) % q by {
                        let y = xs@[k] as int;
                        assert(poly_value(basis@, y) % q == ((y - xs@[j as int]) * poly_value(before, y)) % q);
                        lemma_mul_congruent(y - xs@[j as int], y - xs@[j as int], poly_value(before, y),
                            basis_product(xs@, i as int, j as int, y), q);
                        assert((y - xs@[j as int]) * basis_product(xs@, i as int, j as int, y)
                            == basis_product(xs@, i as int, j as int, y) * (y - xs@[j as int])) by (nonlinear_arith);
                    }
                }
                scale = next;
            } else {
                proof {
                    assert forall|k: int| 0 <= k < n implies basis_product(xs@, i as int, j + 1, #[trigger] xs@[k] as int)
                        == basis_product(xs@, i as int, j as int, xs@[k] as int) by {
                        let b = basis_product(xs@, i as int, j as int, xs@[k] as int);
                        assert(b * 1 == b);
                    }
                    let b = basis_product(xs@, i as int, j as int, xs@[i as int] as int);
                    assert(b * 1 == b);
                }
            }
            j = j + 1;
        }
        let weight = field.mul(ys[i], scale);
        let ghost old_result = result@;
        let mut next: Vec<u64> = Vec::new();
        let mut k: usize = 0;
        while k < n
            invariant
                field.wf(),
                q == field.modulus(),
                n == result.len(),
                n == basis.len(),
                all_below(result@, q),
                all_below(basis@, q),
                weight < q,
                k <= n,
                next.len() == k,
                forall|t: int| 0 <= t < k ==> #[trigger] next@[t] == combine(result@, basis@, weight as int, q)[t],
                all_below(next@, q),
            decreases n - k,
        {
            let t = field.mul(weight, basis[k]);
            let v = field.add(result[k], t);
            next.push(v);
            k = k + 1;
        }
        proof {
            assert(next@ =~= combine(old_result, basis@, weight as int, q));
            assert forall|k: int| 0 <= k < n implies #[trigger] poly_value(next@, xs@[k] as int) % q == if k < i + 1 {
                ys@[k] as int
            } else {
                0
            } by {
                let y = xs@[k] as int;
                lemma_value_combine(old_result, basis@, weight as int, q, y);
                let pr = poly_value(old_result, y);
                let pb = poly_value(basis@, y);
                let bp = basis_product(xs@, i as int, n as int, y);
                lemma_mul_congruent(weight as int, weight as int, pb, bp, q);
                if k == i {
                    assert((weight * bp) % q == ys@[k] as int) by {
                        lemma_mod_twice(ys@[i as int] * scale, q);
                        lemma_small_mod(weight as nat, q as nat);
                        lemma_mul_congruent(weight as int, ys@[i as int] * scale, bp, bp, q);
                        assert((ys@[i as int] * scale) * bp == ys@[i as int] * (scale * bp)) by (nonlinear_arith);
                        lemma_mul_congruent(ys@[i as int] as int, ys@[i as int] as int, scale * bp, 1, q);
                        lemma_small_mod(ys@[i as int] as nat, q as nat);
                    }
                    lemma_add_congruent(pr, 0, weight * pb, weight * bp, q);
                } else {
                    lemma_basis_vanishes(xs@, i as int, n as int, k);
                    assert(weight * bp == 0) by (nonlinear_arith)
                        requires
                            bp == 0,
                    ;
                    lemma_small_mod(0, q as nat);
                    lemma_add_congruent(pr, pr, weight * pb, 0, q);
                    if k < i {
                        lemma_small_mod(ys@[k] as nat, q as nat);
                    }
                }
            }
        }
        result = next;
        i = i + 1;
    }
    Ok(result)
}

/// A fresh vector with the contents of `s`.
pub fn copy_u64(s: &[u64]) -> (res: Vec<u64>)
    ensures
        res@ == s@,
{
    let mut res: Vec<u64> = Vec::new();
    let mut i: usize = 0;
    while i < s.len()
        invariant
            i <= s.len(),
            res@ == s@.subrange(0, i as int),
        decreases s.len() - i,
    {
        res.push(s[i]);
        i = i + 1;
        assert(res@ =~= s@.subrange(0, i as int));
    }
    assert(s@.subrange(0, s.len() as int) =~= s@);
    res
}

/// Every integer is a multiple of one.
pub proof fn lemma_mod_by_one(x: int)
    ensures
        x % 1 == 0,
{
    lemma_fundamental_div_mod(x, 1);
    lemma_mod_bound(x, 1);
}

/// No value occurs twice in `s`.
pub open spec fn distinct(s: Seq<u64>) -> bool {
    forall|a: int, b: int| 0 <= a < b < s.len() ==> s[a] != s[b]
}

/// Two distinct canonical residues differ modulo `q`.
pub proof fn lemma_mod_sub_eq(a: int, b: int, q: int)
    requires
        q > 0,
        0 <= a < q,
        0 <= b < q,
        (a - b) % q == 0,
    ensures
        a == b,
{
    lemma_fundamental_div_mod(a - b, q);
    let k = (a - b) / q;
    assert(a - b == q * k);
    if k >= 1 {
        assert(q * k >= q) by (nonlinear_arith)
            requires
                k >= 1,
                q > 0,
        ;
    }
    if k <= -1 {
        assert(q * k <= -q) by (nonlinear_arith)
            requires
                k <= -1,
                q > 0,
        ;
    }
    if k == 0 {
        lemma_mul_by_zero_is_zero(q);
    }
}

/// Checker dimensions: field order `q`, coset size `m`, group count `ell`, local
/// dimension `r` and message length `k = a r + b`.
#[derive(Clone, Copy, Debug, PartialEq, Eq)]
pub struct Parameters {
    pub q: u64,
    pub m: usize,
    pub ell: usize,
    pub r: usize,
    pub k: usize,
}

impl Parameters {
    /// Number of full source groups, `k / r`.
    pub open spec fn spec_a(self) -> int {
        self.k as int / self.r as int
    }

    /// Residual message length, `k mod r`.
    pub open spec fn spec_b(self) -> int {
        self.k as int % self.r as int
    }

    /// `ceil(k / r)`.
    pub open spec fn spec_groups(self) -> int {
        if self.k as int % self.r as int == 0 {
            self.k as int / self.r as int
        } else {
            self.k as int / self.r as int + 1
        }
    }

    /// Degree bound of the global polynomial: `k - 1 + (ceil(k/r) - 1)(m - r)`.
    pub open spec fn spec_degree(self) -> int {
        self.k - 1 + (self.spec_groups() - 1) * (self.m - self.r)
    }

    /// Number of full source groups.
    pub fn a(self) -> (res: usize)
        requires
            self.r > 0,
        ensures
            res == self.spec_a(),
    {
        self.k / self.r
    }

    /// Residual message length.
    pub fn b(self) -> (res: usize)
        requires
            self.r > 0,
        ensures
            res == self.spec_b(),
    {
        self.k % self.r
    }

    /// Degree bound of the global polynomial.
    pub fn degree(self) -> (res: usize)
        requires
            1 <= self.r <= self.m,
            self.k >= 1,
            self.spec_degree() <= usize::MAX,
        ensures
            res == self.spec_degree(),
    {
        let base = self.k / self.r;
        proof {
            lemma_fundamental_div_mod(self.k as int, self.r as int);
            lemma_mod_bound(self.k as int, self.r as int);
            if self.r == 1 {
                lemma_mod_by_one(self.k as int);
            } else {
                lemma_div_is_strictly_smaller(self.k as int, self.r as int);
            }
            if base == 0 {
                lemma_mul_by_zero_is_zero(self.r as int);
            }
        }
        let groups = if self.k % self.r == 0 {
            base
        } else {
            base + 1
        };
        assert((groups - 1) * (self.m - self.r) >= 0) by (nonlinear_arith)
            requires
                groups >= 1,
                self.m >= self.r,
        ;
        self.k - 1 + (groups - 1) * (self.m - self.r)
    }
}

/// `g` is the least residue that passes the generator test.
pub open spec fn is_least_generator(f: Field, g: int) -> bool {
    2 <= g < f.modulus() && f.passes_generator_test(g) && forall|c: int|
        2 <= c < g ==> !#[trigger] f.passes_generator_test(c)
}

/// Some residue passes the generator test.
pub open spec fn has_generator(f: Field) -> bool {
    exists|g: int| is_least_generator(f, g)
}

/// The least residue that passes the generator test.
pub open spec fn least_generator(f: Field) -> int {
    choose|g: int| is_least_generator(f, g)
}

/// The least generator is unique.
pub proof fn lemma_least_generator_unique(f: Field, g: int)
    requires
        is_least_generator(f, g),
    ensures
        has_generator(f),
        least_generator(f) == g,
{
    let h = least_generator(f);
    assert(is_least_generator(f, h));
    if h < g {
        assert(!f.passes_generator_test(h));
    }
    if g < h {
        assert(!f.passes_generator_test(g));
    }
}

/// The field of order `q` (meaningful when `q` is a prime in the supported range).
pub closed spec fn field_of(q: u64) -> Field {
    Field { q }
}

/// The dimension conditions the checker accepts, and the residual group they imply.
pub open spec fn params_valid(p: Parameters, rg: Option<usize>) -> bool {
    &&& p.m > 2 && (p.q as int - 1) % (p.m as int) == 0
    &&& p.ell >= 2 && p.ell <= (p.q as int - 1) / (p.m as int)
    &&& 2 <= p.r < p.m && p.r <= p.k && p.k <= p.ell * p.r
    &&& if p.spec_b() == 0 {
        rg is None
    } else {
        rg matches Some(j) && p.spec_a() <= j < p.ell
    }
}

/// Coset representative `beta_j = g^j`.
pub open spec fn coset_beta(f: Field, g: int, j: int) -> int {
    pow(g, j as nat) % f.modulus()
}

/// Coset label `gamma_j = beta_j^m`.
pub open spec fn coset_label(f: Field, p: Parameters, g: int, j: int) -> int {
    pow(coset_beta(f, g, j), p.m as nat) % f.modulus()
}

/// Primitive `m`-th root of unity `g^((q-1)/m)`.
pub open spec fn unit_root(f: Field, p: Parameters, g: int) -> int {
    pow(g, ((p.q - 1) / (p.m as int)) as nat) % f.modulus()
}

/// Coset point `beta_j omega^i`.
pub open spec fn coset_point(f: Field, p: Parameters, g: int, j: int, i: int) -> int {
    (coset_beta(f, g, j) * (pow(unit_root(f, p, g), i as nat) % f.modulus())) % f.modulus()
}

/// `prod_{o < n, o != s} (gamma_s - gamma_o)` modulo `q`.
pub open spec fn lagrange_denominator(f: Field, p: Parameters, g: int, s: int, n: int) -> int
    decreases n,
{
    if n <= 0 {
        1
    } else if n - 1 == s {
        lagrange_denominator(f, p, g, s, n - 1)
    } else {
        (lagrange_denominator(f, p, g, s, n - 1) * ((coset_label(f, p, g, s) - coset_label(
            f,
            p,
            g,
            n - 1,
        )) % f.modulus())) % f.modulus()
    }
}

/// The linear polynomial `X - c` modulo `q`.
pub open spec fn linear(c: int, q: int) -> Seq<u64> {
    seq![((0 - c) % q) as u64, 1u64]
}

/// `prod_{o < n, o != s} (X - gamma_o)` modulo `q`, as coefficients.
pub open spec fn lagrange_numerator(f: Field, p: Parameters, g: int, s: int, n: int) -> Seq<u64>
    decreases n,
{
    if n <= 0 {
        seq![1u64]
    } else if n - 1 == s {
        lagrange_numerator(f, p, g, s, n - 1)
    } else {
        pmul(
            lagrange_numerator(f, p, g, s, n - 1),
            linear(coset_label(f, p, g, n - 1), f.modulus()),
            f.modulus(),
        )
    }
}

/// `prod_{o < n} (X - gamma_o)` modulo `q`, as coefficients.
pub open spec fn label_vanishing(f: Field, p: Parameters, g: int, n: int) -> Seq<u64>
    decreases n,
{
    if n <= 0 {
        seq![1u64]
    } else {
        pmul(
            label_vanishing(f, p, g, n - 1),
            linear(coset_label(f, p, g, n - 1), f.modulus()),
            f.modulus(),
        )
    }
}

/// The runtime conditions of the construction: a generator exists, the `ell`
/// coset labels are distinct, every coset point is an `m`-th root of its label,
/// and every source Lagrange denominator is invertible.
pub open spec fn construction_ok(f: Field, p: Parameters) -> bool {
    let g = least_generator(f);
    &&& has_generator(f)
    &&& forall|j1: int, j2: int|
        0 <= j1 < j2 < p.ell ==> coset_label(f, p, g, j1) != coset_label(f, p, g, j2)
    &&& forall|j: int, i: int|
        0 <= j < p.ell && 0 <= i < p.m ==> #[trigger] (pow(coset_point(f, p, g, j, i), p.m as nat)
            % f.modulus()) == coset_label(f, p, g, j)
    &&& forall|s: int|
        0 <= s < p.spec_a() ==> #[trigger] lagrange_denominator(f, p, g, s, p.spec_a()) != 0
}

/// The inverse of `v` modulo `q`, when it exists.
pub open spec fn inverse_of(v: int, q: int) -> int {
    choose|x: int| 0 <= x < q && #[trigger] ((v * x) % q) == 1
}

/// An inverse modulo `q` is unique among canonical residues.
pub proof fn lemma_inverse_unique(v: int, x: int, q: int)
    requires
        q > 1,
        0 <= x < q,
        (v * x) % q == 1,
    ensures
        inverse_of(v, q) == x,
{
    let y = inverse_of(v, q);
    assert(0 <= y < q && (v * y) % q == 1);
    // x = x (v y) = (x v) y = y  (mod q)
    lemma_mul_mod_noop_right(x, v * y, q);
    lemma_mul_is_associative(x, v, y);
    lemma_mul_is_commutative(x, v);
    lemma_mul_mod_noop_left(v * x, y, q);
    lemma_small_mod(x as nat, q as nat);
    lemma_small_mod(y as nat, q as nat);
    lemma_mul_basics(x);
    lemma_mul_basics(y);
}

/// `s` scaled coefficientwise by `w` modulo `q`.
pub open spec fn scale(s: Seq<u64>, w: int, q: int) -> Seq<u64> {
    Seq::new(s.len(), |i: int| ((s[i] * w) % q) as u64)
}

/// Precomputed cosets, points and source Lagrange polynomials of one checker instance.
pub struct Instance {
    p: Parameters,
    field: Field,
    generator: u64,
    gamma: Vec<u64>,
    points: Vec<Vec<u64>>,
    lagrange: Vec<Vec<u64>>,
    vanishing: Vec<u64>,
    residual_group: Option<usize>,
}

impl Instance {
    /// The parameters.
    pub closed spec fn spec_params(self) -> Parameters {
        self.p
    }

    /// The field.
    pub closed spec fn spec_field(self) -> Field {
        self.field
    }

    /// The group holding the residual coordinates, if any.
    pub closed spec fn spec_residual_group(self) -> Option<usize> {
        self.residual_group
    }

    /// The coset labels.
    pub closed spec fn spec_gamma(self) -> Seq<u64> {
        self.gamma@
    }

    /// The source Lagrange polynomials on the labels of groups `0..a`.
    pub closed spec fn spec_lagrange(self) -> Seq<Seq<u64>> {
        self.lagrange@.map_values(|v: Vec<u64>| v@)
    }

    /// `prod_{s < a} (X - gamma_s)`.
    pub closed spec fn spec_vanishing(self) -> Seq<u64> {
        self.vanishing@
    }

    /// What a well-formed instance holds: a prime field of order `q`, valid parameters,
    /// the least generator, the coset labels, the source Lagrange polynomials scaled by
    /// their inverse denominators, and the vanishing polynomial of the source labels.
    pub proof fn lemma_tables(self)
        requires
            self.wf(),
        ensures
            ({
                let f = self.spec_field();
                let p = self.spec_params();
                let q = f.modulus();
                let g = self.spec_generator() as int;
                &&& f.wf()
                &&& 3 <= q <= 65537
                &&& spec_is_prime(q)
                &&& q == p.q
                &&& params_valid(p, self.spec_residual_group())
                &&& construction_ok(f, p)
                &&& g == least_generator(f)
                &&& self.spec_gamma().len() == p.ell
                &&& forall|j: int| 0 <= j < p.ell ==> #[trigger] self.spec_gamma()[j] == coset_label(f, p, g, j)
                &&& self.spec_lagrange().len() == p.spec_a()
                &&& forall|s: int|
                    0 <= s < p.spec_a() ==> #[trigger] self.spec_lagrange()[s] == scale(
                        lagrange_numerator(f, p, g, s, p.spec_a()),
                        inverse_of(lagrange_denominator(f, p, g, s, p.spec_a()), q),
                        q,
                    )
                &&& self.spec_vanishing() == label_vanishing(f, p, g, p.spec_a())
            }),
    {
        self.field.lemma_wf();
        assert forall|s: int| 0 <= s < self.p.spec_a() implies #[trigger] self.spec_lagrange()[s] == scale(
            lagrange_numerator(self.field, self.p, self.generator as int, s, self.p.spec_a()),
            inverse_of(lagrange_denominator(self.field, self.p, self.generator as int, s, self.p.spec_a()), self.field.modulus()),
            self.field.modulus(),
        ) by {
            assert(self.spec_lagrange()[s] == self.lagrange@[s]@);
        }
    }

    /// Consistency of the precomputed tables with the parameters.
    pub closed spec fn wf(self) -> bool {
        let f = self.field;
        let p = self.p;
        let q = f.modulus();
        let g = self.generator as int;
        &&& f.wf()
        &&& q == p.q
        &&& params_valid(p, self.residual_group)
        &&& construction_ok(f, p)
        &&& g == least_generator(f)
        &&& self.gamma.len() == p.ell
        &&& forall|j: int| 0 <= j < p.ell ==> #[trigger] self.gamma@[j] == coset_label(f, p, g, j)
        &&& self.points.len() == p.ell
        &&& forall|j: int|
            0 <= j < p.ell ==> (#[trigger] self.points@[j]).len() == p.m && forall|i: int|
                0 <= i < p.m ==> #[trigger] self.points@[j]@[i] == coset_point(f, p, g, j, i)
        &&& self.lagrange.len() == p.spec_a()
        &&& forall|s: int|
            0 <= s < p.spec_a() ==> (#[trigger] self.lagrange@[s])@ == scale(
                lagrange_numerator(f, p, g, s, p.spec_a()),
                inverse_of(lagrange_denominator(f, p, g, s, p.spec_a()), q),
                q,
            )
        &&& self.vanishing@ == label_vanishing(f, p, g, p.spec_a())
    }
}

/// Whether `v` occurs in `s`.
pub fn contains_u64(s: &[u64], v: u64) -> (res: bool)
    ensures
        res == s@.contains(v),
{
    let mut i: usize = 0;
    while i < s.len()
        invariant
            i <= s.len(),
            forall|t: int| 0 <= t < i ==> s@[t] != v,
        decreases s.len() - i,
    {
        if s[i] == v {
            assert(s@[i as int] == v);
            return true;
        }
        i = i + 1;
    }
    false
}

impl Instance {
    /// Build an instance: validate the dimensions, find the least generator, form
    /// the cosets `beta_j <omega>` with distinct labels `gamma_j = beta_j^m`, and the
    /// Lagrange polynomials of the source labels.
    pub fn new(p: Parameters, residual_group: Option<usize>) -> (res: Result<Self>)
        ensures
            res is Ok <==> (3 <= p.q <= 65537 && spec_is_prime(p.q as int) && params_valid(
                p,
                residual_group,
            ) && construction_ok(field_of(p.q), p)),
            res matches Ok(inst) ==> inst.wf() && inst.spec_params() == p
                && inst.spec_residual_group() == residual_group && inst.spec_field() == field_of(p.q),
    {
        let field = Field::new(p.q)?;
        let ghost f = field;
        let ghost q = p.q as int;
        ensure(
            p.m > 2 && (p.q - 1) % (p.m as u64) == 0,
            "invalid multiplicative subgroup order",
        )?;
        ensure(p.ell >= 2 && p.ell <= ((p.q - 1) as usize) / p.m, "too many cosets")?;
        let dims = if 2 <= p.r && p.r < p.m && p.r <= p.k {
            proof {
                lemma_fundamental_div_mod(q - 1, p.m as int);
                lemma_mod_bound(q - 1, p.m as int);
                assert(p.ell * p.r <= q) by (nonlinear_arith)
                    requires
                        p.ell <= (q - 1) / (p.m as int),
                        p.r < p.m,
                        q - 1 == (p.m as int) * ((q - 1) / (p.m as int)) + (q - 1) % (p.m as int),
                        (q - 1) % (p.m as int) >= 0,
                        p.ell >= 0,
                ;
            }
            p.k <= p.ell * p.r
        } else {
            false
        };
        ensure(dims, "invalid code dimensions")?;
        let a = p.a();
        let b = p.b();
        let rg_ok = if b == 0 {
            residual_group.is_none()
        } else {
            match residual_group {
                Some(j) => a <= j && j < p.ell,
                None => false,
            }
        };
        ensure(rg_ok, "invalid residual group")?;
        assert(params_valid(p, residual_group));
        proof {
            lemma_fundamental_div_mod(p.k as int, p.r as int);
            lemma_mod_bound(p.k as int, p.r as int);
            assert(a <= p.ell) by (nonlinear_arith)
                requires
                    p.k == (p.r as int) * (a as int) + (b as int),
                    b >= 0,
                    p.k <= p.ell * p.r,
                    p.r >= 2,
            ;
        }
        let gen_res = field.generator();
        proof {
            if gen_res is Err {
                if has_generator(f) {
                    let g = choose|g: int| is_least_generator(f, g);
                    assert(!f.passes_generator_test(g));
                }
            }
        }
        let generator = gen_res?;
        let ghost g = generator as int;
        proof {
            lemma_least_generator_unique(f, g);
        }
        let root = field.pow(generator, ((p.q - 1) as usize) / p.m);
        assert(root == unit_root(f, p, g));
        let mut gamma: Vec<u64> = Vec::new();
        let mut points: Vec<Vec<u64>> = Vec::new();
        let mut j: usize = 0;
        while j < p.ell
            invariant
                f == field,
                f.wf(),
                f == field_of(p.q),
                q == f.modulus(),
                q == p.q,
                g == least_generator(f),
                has_generator(f),
                2 <= g < q,
                generator == g,
                root == unit_root(f, p, g),
                root < q,
                p.m > 2,
                j <= p.ell,
                gamma.len() == j,
                points.len() == j,
                forall|t: int| 0 <= t < j ==> #[trigger] gamma@[t] == coset_label(f, p, g, t),
                forall|t: int|
                    0 <= t < j ==> (#[trigger] points@[t]).len() == p.m && forall|i: int|
                        0 <= i < p.m ==> #[trigger] points@[t]@[i] == coset_point(f, p, g, t, i),
                forall|t1: int, t2: int|
                    0 <= t1 < t2 < j ==> coset_label(f, p, g, t1) != coset_label(f, p, g, t2),
                forall|t: int, i: int|
                    0 <= t < j && 0 <= i < p.m ==> #[trigger] (pow(coset_point(f, p, g, t, i), p.m as nat)
                        % q) == coset_label(f, p, g, t),
            decreases p.ell - j,
        {
            let beta = field.pow(generator, j);
            let label = field.pow(beta, p.m);
            assert(label == coset_label(f, p, g, j as int));
            let dup = contains_u64(&gamma, label);
            proof {
                if dup {
                    let t = choose|t: int| 0 <= t < gamma.len() && gamma@[t] == label;
                    assert(coset_label(f, p, g, t) == coset_label(f, p, g, j as int));
                    assert(!construction_ok(f, p));
                }
            }
            ensure(!dup, "coset labels are not distinct")?;
            proof {
                assert forall|t1: int, t2: int| 0 <= t1 < t2 < j + 1 implies coset_label(f, p, g, t1)
                    != coset_label(f, p, g, t2) by {
                    if t2 == j {
                        assert(gamma@[t1] == coset_label(f, p, g, t1));
                        assert(gamma@.contains(gamma@[t1]));
                    }
                }
            }
            gamma.push(label);
            let mut group: Vec<u64> = Vec::new();
            let mut ok = true;
            let mut i: usize = 0;
            while i < p.m
                invariant
                    f == field,
                    f.wf(),
                    q == f.modulus(),
                    root == unit_root(f, p, g),
                    root < q,
                    beta == coset_beta(f, g, j as int),
                    beta < q,
                    label == coset_label(f, p, g, j as int),
                    i <= p.m,
                    group.len() == i,
                    forall|t: int| 0 <= t < i ==> #[trigger] group@[t] == coset_point(f, p, g, j as int, t),
                    ok <==> forall|t: int|
                        0 <= t < i ==> #[trigger] (pow(coset_point(f, p, g, j as int, t), p.m as nat) % q)
                            == coset_label(f, p, g, j as int),
                decreases p.m - i,
            {
                let w = field.pow(root, i);
                let x = field.mul(beta, w);
                assert(x == coset_point(f, p, g, j as int, i as int));
                if field.pow(x, p.m) != label {
                    ok = false;
                }
                group.push(x);
                i = i + 1;
            }
            proof {
                if !ok {
                    let t = choose|t: int|
                        0 <= t < p.m && #[trigger] (pow(coset_point(f, p, g, j as int, t), p.m as nat)
                            % q) != coset_label(f, p, g, j as int);
                    assert(!construction_ok(f, p));
                }
            }
            ensure(ok, "invalid coset points")?;
            points.push(group);
            proof {
                assert(points@[j as int]@ == group@);
            }
            j = j + 1;
        }
        proof {
            assert forall|t: int| 0 <= t < p.ell implies #[trigger] gamma@[t] < q by {
                lemma_mod_bound(pow(coset_beta(f, g, t), p.m as nat), q);
            }
        }
        let mut lagrange: Vec<Vec<u64>> = Vec::new();
        let mut source: usize = 0;
        while source < a
            invariant
                f == field,
                f.wf(),
                f == field_of(p.q),
                q == f.modulus(),
                q == p.q,
                g == least_generator(f),
                has_generator(f),
                a == p.spec_a(),
                a <= p.ell,
                p.ell <= 65537,
                gamma.len() == p.ell,
                forall|t: int| 0 <= t < p.ell ==> #[trigger] gamma@[t] == coset_label(f, p, g, t),
                forall|t: int| 0 <= t < p.ell ==> #[trigger] gamma@[t] < q,
                source <= a,
                lagrange.len() == source,
                forall|s: int|
                    0 <= s < source ==> (#[trigger] lagrange@[s])@ == scale(
                        lagrange_numerator(f, p, g, s, a as int),
                        inverse_of(lagrange_denominator(f, p, g, s, a as int), q),
                        q,
                    ),
                forall|s: int|
                    0 <= s < source ==> #[trigger] lagrange_denominator(f, p, g, s, a as int) != 0,
            decreases a - source,
        {
            let mut numerator: Vec<u64> = Vec::new();
            numerator.push(1);
            let mut denominator: u64 = 1;
            let mut other: usize = 0;
            proof {
                lemma_small_mod(1, q as nat);
                assert(numerator@ =~= seq![1u64]);
            }
            while other < a
                invariant
                    f == field,
                    f.wf(),
                    q == f.modulus(),
                    a <= p.ell,
                    p.ell <= 65537,
                    source < a,
                    gamma.len() == p.ell,
                    forall|t: int| 0 <= t < p.ell ==> #[trigger] gamma@[t] == coset_label(f, p, g, t),
                    forall|t: int| 0 <= t < p.ell ==> #[trigger] gamma@[t] < q,
                    other <= a,
                    numerator@ == lagrange_numerator(f, p, g, source as int, other as int),
                    numerator.len() <= other + 1,
                    all_below(numerator@, q),
                    denominator == lagrange_denominator(f, p, g, source as int, other as int),
                    denominator < q,
                decreases a - other,
            {
                if source != other {
                    let neg = field.sub(0, gamma[other]);
                    let lin: Vec<u64> = vec![neg, 1];
                    assert(lin@ =~= linear(coset_label(f, p, g, other as int), q));
                    numerator = multiply(field, &numerator, &lin);
                    let diff = field.sub(gamma[source], gamma[other]);
                    denominator = field.mul(denominator, diff);
                }
                other = other + 1;
            }
            let inv_res = field.inverse(denominator);
            proof {
                if inv_res is Err {
                    assert(!construction_ok(f, p));
                }
            }
            let inverse = inv_res?;
            proof {
                lemma_inverse_unique(denominator as int, inverse as int, q);
            }
            let mut scaled: Vec<u64> = Vec::new();
            let mut t: usize = 0;
            while t < numerator.len()
                invariant
                    f == field,
                    f.wf(),
                    q == f.modulus(),
                    all_below(numerator@, q),
                    inverse < q,
                    t <= numerator.len(),
                    scaled@ =~= scale(numerator@, inverse as int, q).subrange(0, t as int),
                decreases numerator.len() - t,
            {
                let v = field.mul(numerator[t], inverse);
                scaled.push(v);
                t = t + 1;
            }
            assert(scaled@ =~= scale(numerator@, inverse as int, q));
            lagrange.push(scaled);
            proof {
                assert(lagrange@[source as int]@ == scaled@);
            }
            source = source + 1;
        }
        let mut vanishing: Vec<u64> = Vec::new();
        vanishing.push(1);
        let mut s: usize = 0;
        assert(vanishing@ =~= seq![1u64]);
        while s < a
            invariant
                f == field,
                f.wf(),
                q == f.modulus(),
                a <= p.ell,
                p.ell <= 65537,
                gamma.len() == p.ell,
                forall|t: int| 0 <= t < p.ell ==> #[trigger] gamma@[t] == coset_label(f, p, g, t),
                forall|t: int| 0 <= t < p.ell ==> #[trigger] gamma@[t] < q,
                s <= a,
                vanishing@ == label_vanishing(f, p, g, s as int),
                vanishing.len() == s + 1,
                all_below(vanishing@, q),
            decreases a - s,
        {
            let neg = field.sub(0, gamma[s]);
            let lin: Vec<u64> = vec![neg, 1];
            assert(lin@ =~= linear(coset_label(f, p, g, s as int), q));
            vanishing = multiply(field, &vanishing, &lin);
            s = s + 1;
        }
        let inst = Instance {
            p,
            field,
            generator,
            gamma,
            points,
            lagrange,
            vanishing,
            residual_group,
        };
        Ok(inst)
    }
}

impl Instance {
    /// The field.
    pub fn field(&self) -> (f: Field)
        ensures
            f == self.spec_field(),
    {
        self.field
    }

    /// The parameters.
    pub fn params(&self) -> (p: Parameters)
        ensures
            p == self.spec_params(),
    {
        self.p
    }

    /// The coset labels `gamma_j`.
    pub fn gamma(&self) -> (g: &[u64])
        ensures
            g@ == self.spec_gamma(),
    {
        self.gamma.as_slice()
    }

    /// `L_s(label)` for source `s`.
    pub open spec fn lagrange_weight(self, s: int, label: int) -> int {
        poly_value(self.spec_lagrange()[s], label) % self.spec_field().modulus()
    }

    /// `sum_{s < n} L_s(label) * message[s r + i]` over the integers.
    pub open spec fn source_sum(self, message: Seq<u64>, label: int, i: int, n: int) -> int
        decreases n,
    {
        if n <= 0 {
            0
        } else {
            self.source_sum(message, label, i, n - 1) + self.lagrange_weight(n - 1, label) * message[(n
                - 1) * self.spec_params().r + i]
        }
    }

    /// The local coefficients `sum_s L_s(label) u_s` of the source part at a label.
    pub open spec fn spec_source_combination(self, message: Seq<u64>, label: int) -> Seq<u64> {
        Seq::new(
            self.spec_params().r as nat,
            |i: int|
                (self.source_sum(message, label, i, self.spec_params().spec_a()) % self.spec_field().modulus()) as u64,
        )
    }

    /// `B(gamma_g)` for the residual group `g`: the vanishing polynomial of the
    /// source labels at that label.
    pub open spec fn residual_weight(self, group: int) -> int {
        poly_value(self.spec_vanishing(), self.spec_gamma()[group] as int) % self.spec_field().modulus()
    }

    /// A valid message: `k` canonical residues.
    pub open spec fn valid_message(self, message: Seq<u64>) -> bool {
        message.len() == self.spec_params().k && all_below(message, self.spec_field().modulus())
    }

    /// The residual coefficients: with conversion, `e_i = (v_i - f_i) / B(gamma_g)`
    /// where `f` is the source combination at the residual label; without, `v` itself.
    pub open spec fn spec_residual(self, message: Seq<u64>, convert: bool) -> Seq<u64> {
        let p = self.spec_params();
        let q = self.spec_field().modulus();
        let v = message.subrange(p.spec_a() * p.r, p.k as int);
        match self.spec_residual_group() {
            None => Seq::empty(),
            Some(group) => if !convert {
                v
            } else {
                let base = self.spec_source_combination(message, self.spec_gamma()[group as int] as int);
                let inv = inverse_of(self.residual_weight(group as int), q);
                Seq::new(v.len(), |i: int| ((((v[i] - base[i]) % q) * inv) % q) as u64)
            },
        }
    }

    /// The source part `sum_s L_s(label) u_s` at a label, coefficient by coefficient.
    pub fn source_combination(&self, message: &[u64], label: u64) -> (res: Vec<u64>)
        requires
            self.wf(),
            message.len() >= self.spec_params().spec_a() * self.spec_params().r,
            all_below(message@, self.spec_field().modulus()),
            label < self.spec_field().modulus(),
        ensures
            res@ == self.spec_source_combination(message@, label as int),
            all_below(res@, self.spec_field().modulus()),
    {
        let ghost q = self.field.modulus();
        let p = self.p;
        let a = p.a();
        let mut result: Vec<u64> = Vec::new();
        while result.len() < p.r
            invariant
                result.len() <= p.r,
                forall|k: int| 0 <= k < result.len() ==> #[trigger] result@[k] == 0,
            decreases p.r - result.len(),
        {
            result.push(0);
        }
        proof {
            lemma_small_mod(0, q as nat);
        }
        let mut source: usize = 0;
        while source < a
            invariant
                self.wf(),
                p == self.p,
                q == self.field.modulus(),
                a == p.spec_a(),
                message.len() >= a * p.r,
                all_below(message@, q),
                label < q,
                source <= a,
                result.len() == p.r,
                forall|i: int|
                    0 <= i < p.r ==> #[trigger] result@[i] == self.source_sum(message@, label as int, i, source as int) % q,
            decreases a - source,
        {
            proof {
                assert(self.lagrange@[source as int]@ == self.spec_lagrange()[source as int]);
                assert(all_below(self.lagrange@[source as int]@, q)) by {
                    assert forall|t: int| 0 <= t < self.lagrange@[source as int]@.len() implies #[trigger] self.lagrange@[source as int]@[t] < q by {
                        let num = lagrange_numerator(self.field, p, self.generator as int, source as int, a as int);
                        let inv = inverse_of(lagrange_denominator(self.field, p, self.generator as int, source as int, a as int), q);
                        lemma_mod_bound(num[t] * inv, q);
                    }
                }
            }
            let weight = evaluate(self.field, self.lagrange[source].as_slice(), label);
            let mut i: usize = 0;
            while i < p.r
                invariant
                    self.wf(),
                    p == self.p,
                    q == self.field.modulus(),
                    a == p.spec_a(),
                    message.len() >= a * p.r,
                    all_below(message@, q),
                    source < a,
                    weight == self.lagrange_weight(source as int, label as int),
                    weight < q,
                    i <= p.r,
                    result.len() == p.r,
                    forall|t: int|
                        0 <= t < p.r ==> #[trigger] result@[t] == self.source_sum(message@, label as int, t, source + (if t < i { 1int } else { 0 })) % q,
                decreases p.r - i,
            {
                proof {
                    assert(source * p.r + i < a * p.r) by (nonlinear_arith)
                        requires
                            source < a,
                            i < p.r,
                    ;
                }
                let idx = source * p.r + i;
                let prod = self.field.mul(weight, message[idx]);
                let cur = result[i];
                proof {
                    lemma_mod_bound(self.source_sum(message@, label as int, i as int, source as int), q);
                }
                let nv = self.field.add(cur, prod);
                proof {
                    let base = self.source_sum(message@, label as int, i as int, source as int);
                    let term = weight * message@[idx as int];
                    lemma_add_mod_noop(base, term, q);
                    lemma_mod_twice(base, q);
                    lemma_mod_twice(term, q);
                    lemma_add_mod_noop(base % q, term % q, q);
                }
                result.set(i, nv);
                i = i + 1;
            }
            source = source + 1;
        }
        proof {
            assert(result@ =~= self.spec_source_combination(message@, label as int));
            assert forall|i: int| 0 <= i < result.len() implies #[trigger] result@[i] < q by {
                lemma_mod_bound(self.source_sum(message@, label as int, i, a as int), q);
            }
        }
        result
    }
}

/// All coefficients of a coefficient list are below `q`.
pub proof fn lemma_lagrange_below(inst: Instance, s: int)
    requires
        inst.wf(),
        0 <= s < inst.spec_params().spec_a(),
    ensures
        all_below(inst.spec_lagrange()[s], inst.spec_field().modulus()),
{
    let q = inst.field.modulus();
    let p = inst.p;
    let a = p.spec_a();
    assert(inst.lagrange@[s]@ == inst.spec_lagrange()[s]);
    assert forall|t: int| 0 <= t < inst.lagrange@[s]@.len() implies #[trigger] inst.lagrange@[s]@[t] < q by {
        let num = lagrange_numerator(inst.field, p, inst.generator as int, s, a);
        let inv = inverse_of(lagrange_denominator(inst.field, p, inst.generator as int, s, a), q);
        lemma_mod_bound(num[t] * inv, q);
    }
}

/// `f(X) mod (X^m - gamma)` at coefficient `idx`: `sum_t f[idx + t m] gamma^t`.
pub open spec fn fold_coefficient(f: Seq<u64>, idx: int, m: int, gamma: int) -> int
    decreases f.len() - idx,
    when m > 0
{
    if idx < 0 || idx >= f.len() {
        0
    } else if idx + m >= f.len() {
        f[idx] as int
    } else {
        f[idx] + gamma * fold_coefficient(f, idx + m, m, gamma)
    }
}

/// One step of the fold: `fold(idx) = f[idx] + gamma * fold(idx + m)`.
pub proof fn lemma_fold_unfold(f: Seq<u64>, idx: int, m: int, gamma: int)
    requires
        m > 0,
        0 <= idx < f.len(),
    ensures
        fold_coefficient(f, idx, m, gamma) == f[idx] + gamma * fold_coefficient(f, idx + m, m, gamma),
{
    if idx + m >= f.len() {
        lemma_mul_by_zero_is_zero(gamma);
    }
}

impl Instance {
    /// The residual coefficients (converted or raw), after validating the message.
    pub fn residual(&self, message: &[u64], convert: bool) -> (res: Result<Vec<u64>>)
        requires
            self.wf(),
        ensures
            res is Ok <==> (self.valid_message(message@) && !(convert
                && self.spec_residual_group() is Some && self.residual_weight(
                self.spec_residual_group()->0 as int,
            ) == 0)),
            res matches Ok(v) ==> v@ == self.spec_residual(message@, convert) && all_below(
                v@,
                self.spec_field().modulus(),
            ),
    {
        let ghost q = self.field.modulus();
        let p = self.p;
        let mut valid = message.len() == p.k;
        let mut i: usize = 0;
        while i < message.len()
            invariant
                valid ==> (message.len() == p.k && forall|t: int| 0 <= t < i ==> #[trigger] message@[t] < q),
                !valid ==> !self.valid_message(message@),
                self.wf(),
                p == self.p,
                q == self.field.modulus(),
                q == p.q,
                i <= message.len(),
            decreases message.len() - i,
        {
            if message[i] >= self.p.q {
                valid = false;
            }
            i = i + 1;
        }
        ensure(valid, "invalid message")?;
        let a = p.a();
        let group = match self.residual_group {
            None => {
                return Ok(Vec::new());
            },
            Some(g) => g,
        };
        proof {
            lemma_fundamental_div_mod(p.k as int, p.r as int);
            lemma_mod_bound(p.k as int, p.r as int);
        }
        let mut v: Vec<u64> = Vec::new();
        let mut t = a * p.r;
        while t < p.k
            invariant
                a * p.r <= t <= p.k,
                p == self.p,
                message.len() == p.k,
                all_below(message@, q),
                v@ == message@.subrange(a * p.r, t as int),
            decreases p.k - t,
        {
            v.push(message[t]);
            t = t + 1;
            assert(v@ =~= message@.subrange(a * p.r, t as int));
        }
        if !convert {
            return Ok(v);
        }
        assert(group < p.ell);
        assert(self.gamma@[group as int] < q) by {
            lemma_mod_bound(pow(coset_beta(self.field, self.generator as int, group as int), p.m as nat), q);
        }
        let base = self.source_combination(message, self.gamma[group]);
        proof {
            assert forall|t: int| 0 <= t < self.vanishing.len() implies #[trigger] self.vanishing@[t] < q by {
                let prev = label_vanishing(self.field, p, self.generator as int, p.spec_a() - 1);
                lemma_mod_bound(conv_coef(prev, linear(coset_label(self.field, p, self.generator as int, p.spec_a() - 1), q), t, prev.len() as int), q);
            }
        }
        let bg = evaluate(self.field, self.vanishing.as_slice(), self.gamma[group]);
        let weight = self.field.inverse(bg)?;
        proof {
            lemma_inverse_unique(bg as int, weight as int, q);
        }
        let mut out: Vec<u64> = Vec::new();
        let mut t: usize = 0;
        proof {
            lemma_fundamental_div_mod(p.k as int, p.r as int);
        }
        while t < v.len()
            invariant
                self.wf(),
                q == self.field.modulus(),
                v.len() == p.spec_b(),
                p.spec_b() < p.r,
                base.len() == p.r,
                all_below(v@, q),
                all_below(base@, q),
                weight < q,
                t <= v.len(),
                forall|x: int| 0 <= x < t ==> #[trigger] out@[x] == ((((v@[x] - base@[x]) % q) * weight) % q),
                out.len() == t,
            decreases v.len() - t,
        {
            let d = self.field.sub(v[t], base[t]);
            let e = self.field.mul(d, weight);
            out.push(e);
            t = t + 1;
        }
        proof {
            assert(out@ =~= self.spec_residual(message@, convert));
            assert forall|x: int| 0 <= x < out.len() implies #[trigger] out@[x] < q by {
                lemma_mod_bound(((v@[x] - base@[x]) % q) * weight, q);
            }
        }
        Ok(out)
    }

    /// `f mod (X^m - gamma_group)`, the local polynomial of `f` on coset `group`, as `m`
    /// coefficients.
    pub fn remainder(&self, polynomial: &[u64], group: usize) -> (res: Vec<u64>)
        requires
            self.wf(),
            group < self.spec_params().ell,
            all_below(polynomial@, self.spec_field().modulus()),
        ensures
            res.len() == self.spec_params().m,
            all_below(res@, self.spec_field().modulus()),
            forall|i: int|
                0 <= i < self.spec_params().m ==> #[trigger] res@[i] == fold_coefficient(
                    polynomial@,
                    i,
                    self.spec_params().m as int,
                    self.spec_gamma()[group as int] as int,
                ) % self.spec_field().modulus(),
    {
        let ghost q = self.field.modulus();
        let m = self.p.m;
        let gamma = self.gamma[group];
        assert(gamma < q) by {
            lemma_mod_bound(pow(coset_beta(self.field, self.generator as int, group as int), m as nat), q);
        }
        let ghost f = polynomial@;
        let mut remainder = copy_u64(polynomial);
        while remainder.len() < m
            invariant
                remainder.len() >= f.len(),
                forall|t: int| 0 <= t < f.len() ==> #[trigger] remainder@[t] == f[t],
                forall|t: int| f.len() <= t < remainder.len() ==> #[trigger] remainder@[t] == 0,
            decreases m - remainder.len(),
        {
            remainder.push(0);
        }
        let ghost g = remainder@;
        let len = remainder.len();
        proof {
            lemma_fold_extend(f, g, m as int, gamma as int);
        }
        proof {
            assert forall|j: int| 0 <= j < len && j + m >= len implies (g[j] + gamma * fold_coefficient(g, j + m, m as int, gamma as int)) % q == g[j] as int by {
                lemma_mul_by_zero_is_zero(gamma as int);
                lemma_small_mod(g[j] as nat, q as nat);
            }
        }
        let mut power = len;
        while power > m
            invariant
                self.wf(),
                q == self.field.modulus(),
                m == self.p.m,
                m > 2,
                gamma < q,
                len == g.len(),
                len >= m,
                remainder.len() == len,
                m <= power <= len,
                all_below(g, q),
                all_below(remainder@, q),
                forall|j: int|
                    0 <= j < power ==> #[trigger] remainder@[j] == (if j + m < power {
                        g[j] as int
                    } else {
                        (g[j] + gamma * fold_coefficient(g, j + m, m as int, gamma as int)) % q
                    }),
            decreases power,
        {
            power = power - 1;
            let coefficient = remainder[power];
            let low = power - m;
            let prod = self.field.mul(coefficient, gamma);
            let nv = self.field.add(remainder[low], prod);
            proof {
                let fc = fold_coefficient(g, power as int, m as int, gamma as int);
                lemma_fold_unfold(g, power as int, m as int, gamma as int);
                lemma_fold_unfold(g, low as int, m as int, gamma as int);
                assert(coefficient == fc % q);
                assert(remainder@[low as int] == g[low as int]);
                lemma_mul_mod_noop_left(fc, gamma as int, q);
                lemma_mul_is_commutative(fc, gamma as int);
                lemma_add_mod_noop(g[low as int] as int, gamma * fc, q);
                lemma_small_mod(g[low as int] as nat, q as nat);
                lemma_mod_twice(gamma * fc, q);
                lemma_mul_is_commutative(fc % q, gamma as int);
            }
            remainder.set(low, nv);
            remainder.set(power, 0);
        }
        remainder.truncate(m);
        proof {
            assert forall|i: int| 0 <= i < m implies #[trigger] remainder@[i] == fold_coefficient(f, i, m as int, gamma as int) % q by {
                lemma_fold_unfold(g, i, m as int, gamma as int);
            }
        }
        remainder
    }
}

/// Padding with zero coefficients does not change the folded coefficients.
pub proof fn lemma_fold_extend(f: Seq<u64>, g: Seq<u64>, m: int, gamma: int)
    requires
        m > 0,
        g.len() >= f.len(),
        forall|t: int| 0 <= t < f.len() ==> #[trigger] g[t] == f[t],
        forall|t: int| f.len() <= t < g.len() ==> #[trigger] g[t] == 0,
    ensures
        forall|i: int| i >= 0 ==> #[trigger] fold_coefficient(g, i, m, gamma) == fold_coefficient(f, i, m, gamma),
{
    assert forall|i: int| i >= 0 implies #[trigger] fold_coefficient(g, i, m, gamma) == fold_coefficient(f, i, m, gamma) by {
        lemma_fold_extend_at(f, g, m, gamma, i);
    }
}

proof fn lemma_fold_extend_at(f: Seq<u64>, g: Seq<u64>, m: int, gamma: int, i: int)
    requires
        m > 0,
        i >= 0,
        g.len() >= f.len(),
        forall|t: int| 0 <= t < f.len() ==> #[trigger] g[t] == f[t],
        forall|t: int| f.len() <= t < g.len() ==> #[trigger] g[t] == 0,
    ensures
        fold_coefficient(g, i, m, gamma) == fold_coefficient(f, i, m, gamma),
    decreases g.len() - i,
{
    if i < g.len() {
        if i + m < g.len() {
            lemma_fold_extend_at(f, g, m, gamma, i + m);
        }
        lemma_fold_unfold(g, i, m, gamma);
        if i < f.len() {
            lemma_fold_unfold(f, i, m, gamma);
        } else {
            lemma_fold_zero_tail(f, g, m, gamma, i);
        }
    }
}

proof fn lemma_fold_zero_tail(f: Seq<u64>, g: Seq<u64>, m: int, gamma: int, i: int)
    requires
        m > 0,
        i >= f.len(),
        g.len() >= f.len(),
        forall|t: int| f.len() <= t < g.len() ==> #[trigger] g[t] == 0,
    ensures
        fold_coefficient(g, i, m, gamma) == 0,
        fold_coefficient(f, i, m, gamma) == 0,
    decreases g.len() - i,
{
    if i >= 0 && i < g.len() {
        if i + m < g.len() {
            lemma_fold_zero_tail(f, g, m, gamma, i + m);
        }
        lemma_fold_unfold(g, i, m, gamma);
        lemma_mul_by_zero_is_zero(gamma);
    }
}

/// Under valid parameters the degree bound has a closed form and is small.
pub proof fn lemma_degree_facts(p: Parameters, rg: Option<usize>)
    requires
        params_valid(p, rg),
    ensures
        p.spec_a() >= 1,
        p.spec_a() <= p.ell,
        p.spec_b() < p.r,
        p.k == p.spec_a() * p.r + p.spec_b(),
        p.ell * p.m <= p.q - 1,
        p.spec_b() == 0 ==> p.spec_degree() == (p.spec_a() - 1) * p.m + p.r - 1,
        p.spec_b() > 0 ==> p.spec_degree() == p.spec_a() * p.m + p.spec_b() - 1,
        p.spec_b() > 0 ==> p.spec_a() < p.ell,
        0 <= p.spec_degree() < p.ell * p.m,
        p.q <= 65537 ==> p.spec_degree() < 65537,
{
    let a = p.spec_a();
    let b = p.spec_b();
    let q = p.q as int;
    lemma_fundamental_div_mod(p.k as int, p.r as int);
    lemma_mod_bound(p.k as int, p.r as int);
    lemma_fundamental_div_mod(q - 1, p.m as int);
    lemma_mod_bound(q - 1, p.m as int);
    assert(p.k == p.r * a + b);
    lemma_mul_is_commutative(p.r as int, a);
    assert(a >= 1) by (nonlinear_arith)
        requires
            p.k == p.r * a + b,
            b < p.r,
            p.r <= p.k,
    ;
    assert(a <= p.ell) by (nonlinear_arith)
        requires
            p.k == p.r * a + b,
            b >= 0,
            p.k <= p.ell * p.r,
            p.r >= 2,
    ;
    assert(p.ell * p.m <= q - 1) by (nonlinear_arith)
        requires
            p.ell <= (q - 1) / (p.m as int),
            q - 1 == (p.m as int) * ((q - 1) / (p.m as int)) + (q - 1) % (p.m as int),
            (q - 1) % (p.m as int) >= 0,
            p.ell >= 0,
    ;
    if b > 0 {
        assert(a < p.ell) by (nonlinear_arith)
            requires
                p.k == p.r * a + b,
                b > 0,
                p.k <= p.ell * p.r,
                p.r >= 2,
        ;
        assert(p.spec_degree() == a * p.m + b - 1) by (nonlinear_arith)
            requires
                p.spec_degree() == p.k - 1 + (a + 1 - 1) * (p.m - p.r),
                p.k == a * p.r + b,
        ;
        assert(a * p.m + b - 1 < p.ell * p.m) by (nonlinear_arith)
            requires
                a < p.ell,
                b < p.r,
                p.r < p.m,
        ;
    } else {
        assert(p.spec_degree() == (a - 1) * p.m + p.r - 1) by (nonlinear_arith)
            requires
                p.spec_degree() == p.k - 1 + (a - 1) * (p.m - p.r),
                p.k == a * p.r,
        ;
        assert((a - 1) * p.m + p.r - 1 < p.ell * p.m) by (nonlinear_arith)
            requires
                a <= p.ell,
                a >= 1,
                p.r < p.m,
        ;
    }
    assert(0 <= p.spec_degree()) by (nonlinear_arith)
        requires
            b > 0 ==> p.spec_degree() == a * p.m + b - 1,
            b == 0 ==> p.spec_degree() == (a - 1) * p.m + p.r - 1,
            a >= 1,
            p.m > 0,
            p.r >= 2,
            b >= 0,
    ;
}

/// Splitting a power into its coset block and in-block offset.
pub proof fn lemma_block_split(t: int, i: int, m: int)
    requires
        m > 0,
        t >= 0,
        0 <= i < m,
    ensures
        (t * m + i) / m == t,
        (t * m + i) % m == i,
{
    lemma_fundamental_div_mod_converse(t * m + i, m, t, i);
    lemma_mul_is_commutative(t, m);
}

impl Instance {
    /// The degree bound `D` of the instance.
    pub open spec fn spec_degree(self) -> int {
        self.spec_params().spec_degree()
    }

    /// The message coordinate recovered from `f`: source coordinates from the
    /// remainders at the source labels, residual coordinates from the remainder at
    /// the residual label.
    pub open spec fn spec_decode(self, f: Seq<u64>) -> Seq<u64> {
        let p = self.spec_params();
        let q = self.spec_field().modulus();
        let ar = p.spec_a() * p.r;
        Seq::new(
            p.k as nat,
            |idx: int|
                (if idx < ar {
                    fold_coefficient(f, idx % (p.r as int), p.m as int, self.spec_gamma()[idx / (p.r as int)] as int) % q
                } else {
                    fold_coefficient(
                        f,
                        idx - ar,
                        p.m as int,
                        self.spec_gamma()[self.spec_residual_group()->0 as int] as int,
                    ) % q
                }) as u64,
        )
    }

    /// Every nonzero coefficient has exponent at most `D` and exponent mod `m` below `r`.
    pub open spec fn in_code_space(self, f: Seq<u64>) -> bool {
        forall|t: int|
            0 <= t < f.len() ==> #[trigger] f[t] == 0 || (t <= self.spec_degree() && t % (
            self.spec_params().m as int) < self.spec_params().r)
    }

    /// Equation 16: `f_i + (B(gamma_g) - 1) v_i = 0` for every residual coordinate.
    pub open spec fn spec_mutation_condition(self, message: Seq<u64>) -> bool {
        let p = self.spec_params();
        let q = self.spec_field().modulus();
        match self.spec_residual_group() {
            None => true,
            Some(group) => {
                let base = self.spec_source_combination(message, self.spec_gamma()[group as int] as int);
                let w = (self.residual_weight(group as int) - 1) % q;
                forall|i: int|
                    0 <= i < p.spec_b() ==> (#[trigger] base[i] + w * message[p.spec_a() * p.r + i]) % q
                        == 0
            },
        }
    }

    /// Recover the message from a global polynomial.
    pub fn decode(&self, polynomial: &[u64]) -> (res: Vec<u64>)
        requires
            self.wf(),
            all_below(polynomial@, self.spec_field().modulus()),
        ensures
            res@ == self.spec_decode(polynomial@),
    {
        let ghost q = self.field.modulus();
        let p = self.p;
        proof {
            lemma_degree_facts(p, self.residual_group);
        }
        let a = p.a();
        let mut message: Vec<u64> = Vec::new();
        let mut source: usize = 0;
        while source < a
            invariant
                self.wf(),
                p == self.p,
                q == self.field.modulus(),
                a == p.spec_a(),
                a <= p.ell,
                p.r < p.m,
                p.k == a * p.r + p.spec_b(),
                p.spec_b() >= 0,
                all_below(polynomial@, q),
                source <= a,
                message.len() == source * p.r,
                forall|idx: int| 0 <= idx < message.len() ==> #[trigger] message@[idx] == self.spec_decode(polynomial@)[idx],
            decreases a - source,
        {
            let rem = self.remainder(polynomial, source);
            let mut i: usize = 0;
            while i < p.r
                invariant
                    self.wf(),
                    p == self.p,
                    q == self.field.modulus(),
                    a == p.spec_a(),
                    source < a,
                    p.r < p.m,
                    p.k == a * p.r + p.spec_b(),
                    p.spec_b() >= 0,
                    rem.len() == p.m,
                    forall|x: int| 0 <= x < p.m ==> #[trigger] rem@[x] == fold_coefficient(polynomial@, x, p.m as int, self.spec_gamma()[source as int] as int) % q,
                    i <= p.r,
                    message.len() == source * p.r + i,
                    forall|idx: int| 0 <= idx < message.len() ==> #[trigger] message@[idx] == self.spec_decode(polynomial@)[idx],
                decreases p.r - i,
            {
                proof {
                    lemma_block_split(source as int, i as int, p.r as int);
                    lemma_mul_is_commutative(source as int, p.r as int);
                    assert(source * p.r + i < a * p.r) by (nonlinear_arith)
                        requires
                            source < a,
                            i < p.r,
                    ;
                }
                message.push(rem[i]);
                i = i + 1;
            }
            proof {
                assert((source + 1) * p.r == source * p.r + p.r) by (nonlinear_arith);
            }
            source = source + 1;
        }
        if let Some(group) = self.residual_group {
            let rem = self.remainder(polynomial, group);
            let b = p.b();
            let mut i: usize = 0;
            while i < b
                invariant
                    self.wf(),
                    p == self.p,
                    q == self.field.modulus(),
                    a == p.spec_a(),
                    b == p.spec_b(),
                    b < p.r,
                    p.r < p.m,
                    p.k == a * p.r + b,
                    self.residual_group == Some(group),
                    rem.len() == p.m,
                    forall|x: int| 0 <= x < p.m ==> #[trigger] rem@[x] == fold_coefficient(polynomial@, x, p.m as int, self.spec_gamma()[group as int] as int) % q,
                    i <= b,
                    message.len() == a * p.r + i,
                    forall|idx: int| 0 <= idx < message.len() ==> #[trigger] message@[idx] == self.spec_decode(polynomial@)[idx],
                decreases b - i,
            {
                message.push(rem[i]);
                i = i + 1;
            }
        }
        proof {
            if self.residual_group is None {
                assert(p.spec_b() == 0);
            }
            assert(message@ =~= self.spec_decode(polynomial@));
        }
        message
    }

    /// Whether `polynomial` lies in the global code space.
    pub fn belongs(&self, polynomial: &[u64]) -> (res: bool)
        requires
            self.wf(),
        ensures
            res == self.in_code_space(polynomial@),
    {
        let p = self.p;
        proof {
            lemma_degree_facts(p, self.residual_group);
        }
        let degree = p.degree();
        let mut i: usize = 0;
        while i < polynomial.len()
            invariant
                self.wf(),
                p == self.p,
                degree == self.spec_degree(),
                p.m > 2,
                i <= polynomial.len(),
                forall|t: int|
                    0 <= t < i ==> #[trigger] polynomial@[t] == 0 || (t <= degree && t % (p.m as int) < p.r),
            decreases polynomial.len() - i,
        {
            if !(polynomial[i] == 0 || (i <= degree && i % p.m < p.r)) {
                return false;
            }
            i = i + 1;
        }
        true
    }

    /// Whether the unconverted residual still decodes to the message (equation 16).
    pub fn mutation_condition(&self, message: &[u64]) -> (res: bool)
        requires
            self.wf(),
            self.valid_message(message@),
        ensures
            res == self.spec_mutation_condition(message@),
    {
        let ghost q = self.field.modulus();
        let p = self.p;
        proof {
            lemma_degree_facts(p, self.residual_group);
        }
        let group = match self.residual_group {
            None => {
                return true;
            },
            Some(g) => g,
        };
        assert(self.gamma@[group as int] < q) by {
            lemma_mod_bound(pow(coset_beta(self.field, self.generator as int, group as int), p.m as nat), q);
        }
        let base = self.source_combination(message, self.gamma[group]);
        proof {
            assert forall|t: int| 0 <= t < self.vanishing.len() implies #[trigger] self.vanishing@[t] < q by {
                let prev = label_vanishing(self.field, p, self.generator as int, p.spec_a() - 1);
                lemma_mod_bound(conv_coef(prev, linear(coset_label(self.field, p, self.generator as int, p.spec_a() - 1), q), t, prev.len() as int), q);
            }
        }
        let bg = evaluate(self.field, self.vanishing.as_slice(), self.gamma[group]);
        let weight = self.field.sub(bg, 1);
        let a = p.a();
        let b = p.b();
        let mut i: usize = 0;
        while i < b
            invariant
                self.wf(),
                p == self.p,
                q == self.field.modulus(),
                a == p.spec_a(),
                b == p.spec_b(),
                b < p.r,
                p.k == a * p.r + b,
                self.valid_message(message@),
                self.residual_group == Some(group),
                group < p.ell,
                base@ == self.spec_source_combination(message@, self.spec_gamma()[group as int] as int),
                base.len() == p.r,
                all_below(base@, q),
                weight == (self.residual_weight(group as int) - 1) % q,
                weight < q,
                i <= b,
                forall|t: int| 0 <= t < i ==> (#[trigger] base@[t] + weight * message@[a * p.r + t]) % q == 0,
            decreases b - i,
        {
            let prod = self.field.mul(weight, message[a * p.r + i]);
            let sum = self.field.add(base[i], prod);
            proof {
                lemma_add_mod_noop(base@[i as int] as int, weight * message@[a * p.r + i], q);
                lemma_small_mod(base@[i as int] as nat, q as nat);
                lemma_mod_twice(weight * message@[a * p.r + i], q);
            }
            if sum != 0 {
                proof {
                    let sb = self.spec_source_combination(message@, self.spec_gamma()[group as int] as int);
                    assert(sb[i as int] == base@[i as int]);
                    let w = (self.residual_weight(group as int) - 1) % q;
                    assert((sb[i as int] + w * message@[p.spec_a() * p.r + i]) % q != 0);
                    assert(self.spec_residual_group() == Some(group));
                    assert(0 <= i < p.spec_b());
                    assert(!self.spec_mutation_condition(message@));
                }
                return false;
            }
            i = i + 1;
        }
        true
    }
}

impl Instance {
    /// Contribution of sources `0..n` to coefficient `power` of the global polynomial:
    /// `sum_s L_s[t] u_s[i]` with `power = t m + i`.
    pub open spec fn source_part(self, message: Seq<u64>, power: int, n: int) -> int
        decreases n,
    {
        let p = self.spec_params();
        let t = power / (p.m as int);
        let i = power % (p.m as int);
        if n <= 0 {
            0
        } else {
            self.source_part(message, power, n - 1) + (if i < p.r && t < self.spec_lagrange()[n
                - 1].len() {
                self.spec_lagrange()[n - 1][t] * message[(n - 1) * p.r + i]
            } else {
                0
            })
        }
    }

    /// Contribution of the residual to coefficient `power`: `B[t] e[i]`.
    pub open spec fn residual_part(self, residual: Seq<u64>, power: int) -> int {
        let t = power / (self.spec_params().m as int);
        let i = power % (self.spec_params().m as int);
        if i < residual.len() && t < self.spec_vanishing().len() {
            self.spec_vanishing()[t] * residual[i]
        } else {
            0
        }
    }

    /// The global polynomial `f(X) = sum_s L_s(X^m) u_s(X) + B(X^m) e(X)`, as `D + 1`
    /// coefficients reduced modulo `q`.
    pub open spec fn spec_encode(self, message: Seq<u64>, residual: Seq<u64>) -> Seq<u64> {
        Seq::new(
            (self.spec_degree() + 1) as nat,
            |power: int|
                ((self.source_part(message, power, self.spec_params().spec_a()) + self.residual_part(
                    residual,
                    power,
                )) % self.spec_field().modulus()) as u64,
        )
    }

    /// Encode a message into its global polynomial, with or without the residual
    /// conversion.
    pub fn encode(&self, message: &[u64], convert: bool) -> (res: Result<Vec<u64>>)
        requires
            self.wf(),
        ensures
            res is Ok <==> (self.valid_message(message@) && !(convert
                && self.spec_residual_group() is Some && self.residual_weight(
                self.spec_residual_group()->0 as int,
            ) == 0)),
            res is Ok <==> self.valid_message(message@),
            res matches Ok(f) ==> f@ == self.spec_encode(
                message@,
                self.spec_residual(message@, convert),
            ) && all_below(f@, self.spec_field().modulus()),
            convert ==> (res matches Ok(f) ==> self.spec_decode(f@) == message@),
    {
        proof {
            crate::encoding_laws::lemma_residual_weight_nonzero(*self);
            if self.valid_message(message@) && convert {
                crate::encoding_laws::lemma_round_trip(*self, message@);
            }
        }
        let ghost q = self.field.modulus();
        let residual = self.residual(message, convert)?;
        let p = self.p;
        proof {
            lemma_degree_facts(p, self.residual_group);
        }
        let degree = p.degree();
        let a = p.a();
        let len = degree + 1;
        let mut polynomial: Vec<u64> = Vec::new();
        while polynomial.len() < len
            invariant
                polynomial.len() <= len,
                forall|x: int| 0 <= x < polynomial.len() ==> #[trigger] polynomial@[x] == 0,
            decreases len - polynomial.len(),
        {
            polynomial.push(0);
        }
        proof {
            lemma_small_mod(0, q as nat);
        }
        let ghost m = p.m as int;
        let mut source: usize = 0;
        while source < a
            invariant
                self.wf(),
                p == self.p,
                q == self.field.modulus(),
                m == p.m,
                a == p.spec_a(),
                1 <= a <= p.ell,
                p.k == a * p.r + p.spec_b(),
                p.spec_b() < p.r,
                p.spec_b() >= 0,
                p.r < p.m,
                p.ell * p.m <= p.q - 1,
                p.q <= 65537,
                degree == p.spec_degree(),
                p.spec_b() == 0 ==> degree == (a - 1) * p.m + p.r - 1,
                p.spec_b() > 0 ==> degree == a * p.m + p.spec_b() - 1,
                len == degree + 1,
                self.valid_message(message@),
                polynomial.len() == len,
                source <= a,
                forall|x: int| 0 <= x < len ==> #[trigger] polynomial@[x] == self.source_part(message@, x, source as int) % q,
            decreases a - source,
        {
            proof {
                lemma_instance_shapes(*self);
                lemma_lagrange_below(*self, source as int);
                assert(self.lagrange@[source as int]@ == self.spec_lagrange()[source as int]);
            }
            let row = &self.lagrange[source];
            let mut outer: usize = 0;
            while outer < row.len()
                invariant
                    self.wf(),
                    p == self.p,
                    q == self.field.modulus(),
                    m == p.m,
                    a == p.spec_a(),
                    1 <= a <= p.ell,
                    p.k == a * p.r + p.spec_b(),
                    p.spec_b() >= 0,
                    p.r < p.m,
                    p.ell * p.m <= p.q - 1,
                    p.q <= 65537,
                    degree == p.spec_degree(),
                    p.spec_b() == 0 ==> degree == (a - 1) * p.m + p.r - 1,
                    p.spec_b() > 0 ==> degree == a * p.m + p.spec_b() - 1,
                    len == degree + 1,
                    self.valid_message(message@),
                    polynomial.len() == len,
                    source < a,
                    row@ == self.spec_lagrange()[source as int],
                    row.len() == a,
                    all_below(row@, q),
                    outer <= row.len(),
                    forall|x: int|
                        0 <= x < len ==> #[trigger] polynomial@[x] == (self.source_part(message@, x, source as int) + (
                        if x / m < outer && x % m < p.r {
                            row@[x / m] * message@[source * p.r + x % m]
                        } else {
                            0
                        })) % q,
                decreases row.len() - outer,
            {
                let coefficient = row[outer];
                let mut inner: usize = 0;
                while inner < p.r
                    invariant
                        self.wf(),
                        p == self.p,
                        q == self.field.modulus(),
                        m == p.m,
                        a == p.spec_a(),
                        1 <= a <= p.ell,
                        p.k == a * p.r + p.spec_b(),
                        p.spec_b() >= 0,
                        p.r < p.m,
                        p.ell * p.m <= p.q - 1,
                        p.q <= 65537,
                        degree == p.spec_degree(),
                        p.spec_b() == 0 ==> degree == (a - 1) * p.m + p.r - 1,
                        p.spec_b() > 0 ==> degree == a * p.m + p.spec_b() - 1,
                        len == degree + 1,
                        self.valid_message(message@),
                        polynomial.len() == len,
                        source < a,
                        row@ == self.spec_lagrange()[source as int],
                        row.len() == a,
                        all_below(row@, q),
                        outer < row.len(),
                        coefficient == row@[outer as int],
                        inner <= p.r,
                        forall|x: int|
                            0 <= x < len ==> #[trigger] polynomial@[x] == (self.source_part(message@, x, source as int)
                                + (if (x / m < outer || (x / m == outer && x % m < inner)) && x % m < p.r {
                                row@[x / m] * message@[source * p.r + x % m]
                            } else {
                                0
                            })) % q,
                    decreases p.r - inner,
                {
                    proof {
                        assert(outer * p.m + inner <= degree) by (nonlinear_arith)
                            requires
                                outer < a,
                                inner < p.r,
                                p.r < p.m,
                                p.spec_b() == 0 ==> degree == (a - 1) * p.m + p.r - 1,
                                p.spec_b() > 0 ==> degree == a * p.m + p.spec_b() - 1,
                                p.spec_b() >= 0,
                        ;
                        assert(outer * p.m <= p.ell * p.m) by (nonlinear_arith)
                            requires
                                outer < a,
                                a <= p.ell,
                        ;
                        assert(source * p.r + inner < a * p.r) by (nonlinear_arith)
                            requires
                                source < a,
                                inner < p.r,
                        ;
                        lemma_block_split(outer as int, inner as int, m);
                    }
                    let power = outer * p.m + inner;
                    let term = self.field.mul(coefficient, message[source * p.r + inner]);
                    let cur = polynomial[power];
                    proof {
                        lemma_mod_bound(self.source_part(message@, power as int, source as int), q);
                    }
                    let nv = self.field.add(cur, term);
                    proof {
                        let base = self.source_part(message@, power as int, source as int);
                        let tm = coefficient * message@[source * p.r + inner];
                        lemma_add_mod_noop(base, tm, q);
                        lemma_mod_twice(base, q);
                        lemma_mod_twice(tm, q);
                        lemma_add_mod_noop(base % q, tm % q, q);
                    }
                    polynomial.set(power, nv);
                    proof {
                        assert forall|x: int| 0 <= x < len implies #[trigger] polynomial@[x] == (self.source_part(message@, x, source as int)
                                + (if (x / m < outer || (x / m == outer && x % m < inner + 1)) && x % m < p.r {
                                row@[x / m] * message@[source * p.r + x % m]
                            } else {
                                0
                            })) % q by {
                            if x != power {
                                if x / m == outer && x % m == inner {
                                    lemma_fundamental_div_mod(x, m);
                                    lemma_mul_is_commutative(m, outer as int);
                                }
                            }
                        }
                    }
                    inner = inner + 1;
                }
                outer = outer + 1;
            }
            proof {
                assert forall|x: int| 0 <= x < len implies #[trigger] polynomial@[x] == self.source_part(message@, x, source + 1) % q by {
                    assert(self.spec_lagrange()[source as int].len() == a);
                }
            }
            source = source + 1;
        }
        let mut outer: usize = 0;
        proof {
            lemma_instance_shapes(*self);
            assert forall|t: int| 0 <= t < self.vanishing.len() implies #[trigger] self.vanishing@[t] < q by {
                let prev = label_vanishing(self.field, p, self.generator as int, p.spec_a() - 1);
                lemma_mod_bound(conv_coef(prev, linear(coset_label(self.field, p, self.generator as int, p.spec_a() - 1), q), t, prev.len() as int), q);
            }
            if p.spec_b() == 0 {
                assert(residual.len() == 0);
            }
        }
        while outer < self.vanishing.len()
            invariant
                self.wf(),
                p == self.p,
                q == self.field.modulus(),
                m == p.m,
                a == p.spec_a(),
                1 <= a <= p.ell,
                p.k == a * p.r + p.spec_b(),
                p.spec_b() >= 0,
                p.r < p.m,
                p.ell * p.m <= p.q - 1,
                p.q <= 65537,
                degree == p.spec_degree(),
                p.spec_b() > 0 ==> degree == a * p.m + p.spec_b() - 1,
                len == degree + 1,
                self.vanishing.len() == a + 1,
                all_below(self.vanishing@, q),
                residual.len() == p.spec_b(),
                p.spec_b() == 0 ==> residual.len() == 0,
                all_below(residual@, q),
                polynomial.len() == len,
                outer <= self.vanishing.len(),
                forall|x: int|
                    0 <= x < len ==> #[trigger] polynomial@[x] == (self.source_part(message@, x, a as int) + (
                    if x / m < outer && x % m < residual.len() {
                        self.vanishing@[x / m] * residual@[x % m]
                    } else {
                        0
                    })) % q,
            decreases self.vanishing.len() - outer,
        {
            let coefficient = self.vanishing[outer];
            let mut inner: usize = 0;
            while inner < residual.len()
                invariant
                    self.wf(),
                    p == self.p,
                    q == self.field.modulus(),
                    m == p.m,
                    a == p.spec_a(),
                    1 <= a <= p.ell,
                    p.k == a * p.r + p.spec_b(),
                    p.spec_b() >= 0,
                    p.r < p.m,
                    p.ell * p.m <= p.q - 1,
                    p.q <= 65537,
                    degree == p.spec_degree(),
                    p.spec_b() > 0 ==> degree == a * p.m + p.spec_b() - 1,
                    len == degree + 1,
                    self.vanishing.len() == a + 1,
                    all_below(self.vanishing@, q),
                    residual.len() == p.spec_b(),
                    all_below(residual@, q),
                    polynomial.len() == len,
                    outer < self.vanishing.len(),
                    coefficient == self.vanishing@[outer as int],
                    inner <= residual.len(),
                    forall|x: int|
                        0 <= x < len ==> #[trigger] polynomial@[x] == (self.source_part(message@, x, a as int)
                            + (if (x / m < outer || (x / m == outer && x % m < inner)) && x % m < residual.len() {
                            self.vanishing@[x / m] * residual@[x % m]
                        } else {
                            0
                        })) % q,
                decreases residual.len() - inner,
            {
                proof {
                    assert(outer * p.m + inner <= degree) by (nonlinear_arith)
                        requires
                            outer <= a,
                            inner < p.spec_b(),
                            p.spec_b() > 0 ==> degree == a * p.m + p.spec_b() - 1,
                            p.r < p.m,
                    ;
                    assert(outer * p.m <= p.ell * p.m) by (nonlinear_arith)
                        requires
                            outer <= a,
                            a <= p.ell,
                    ;
                    lemma_block_split(outer as int, inner as int, m);
                }
                let power = outer * p.m + inner;
                let term = self.field.mul(coefficient, residual[inner]);
                let cur = polynomial[power];
                proof {
                    lemma_mod_bound(self.source_part(message@, power as int, a as int), q);
                }
                let nv = self.field.add(cur, term);
                proof {
                    let base = self.source_part(message@, power as int, a as int);
                    let tm = coefficient * residual@[inner as int];
                    lemma_add_mod_noop(base, tm, q);
                    lemma_mod_twice(base, q);
                    lemma_mod_twice(tm, q);
                    lemma_add_mod_noop(base % q, tm % q, q);
                }
                polynomial.set(power, nv);
                proof {
                    assert forall|x: int| 0 <= x < len implies #[trigger] polynomial@[x] == (self.source_part(message@, x, a as int)
                            + (if (x / m < outer || (x / m == outer && x % m < inner + 1)) && x % m < residual.len() {
                            self.vanishing@[x / m] * residual@[x % m]
                        } else {
                            0
                        })) % q by {
                        if x != power {
                            if x / m == outer && x % m == inner {
                                lemma_fundamental_div_mod(x, m);
                                lemma_mul_is_commutative(m, outer as int);
                            }
                        }
                    }
                }
                inner = inner + 1;
            }
            outer = outer + 1;
        }
        proof {
            assert(polynomial@ =~= self.spec_encode(message@, residual@));
            assert forall|x: int| 0 <= x < polynomial.len() implies #[trigger] polynomial@[x] < q by {
                lemma_mod_bound(self.source_part(message@, x, a as int) + self.residual_part(residual@, x), q);
            }
        }
        Ok(polynomial)
    }
}

/// `prod_{o < n, o != s} (X - gamma_o)` has `n` coefficients when `s < n`.
pub proof fn lemma_numerator_len(f: Field, p: Parameters, g: int, s: int, n: int)
    requires
        0 <= s < n,
    ensures
        lagrange_numerator(f, p, g, s, n).len() == n,
    decreases n,
{
    if n - 1 == s {
        lemma_numerator_len_below(f, p, g, s, n - 1);
    } else {
        lemma_numerator_len(f, p, g, s, n - 1);
    }
}

pub proof fn lemma_numerator_len_below(f: Field, p: Parameters, g: int, s: int, n: int)
    requires
        0 <= n <= s,
    ensures
        lagrange_numerator(f, p, g, s, n).len() == n + 1,
    decreases n,
{
    if n > 0 {
        lemma_numerator_len_below(f, p, g, s, n - 1);
    }
}

/// `prod_{o < n} (X - gamma_o)` has `n + 1` coefficients.
pub proof fn lemma_vanishing_len(f: Field, p: Parameters, g: int, n: int)
    requires
        n >= 0,
    ensures
        label_vanishing(f, p, g, n).len() == n + 1,
    decreases n,
{
    if n > 0 {
        lemma_vanishing_len(f, p, g, n - 1);
    }
}

/// The shapes of the precomputed polynomials.
pub proof fn lemma_instance_shapes(inst: Instance)
    requires
        inst.wf(),
    ensures
        inst.spec_vanishing().len() == inst.spec_params().spec_a() + 1,
        forall|s: int|
            0 <= s < inst.spec_params().spec_a() ==> (#[trigger] inst.spec_lagrange()[s]).len()
                == inst.spec_params().spec_a(),
        inst.spec_lagrange().len() == inst.spec_params().spec_a(),
{
    let p = inst.p;
    lemma_degree_facts(p, inst.residual_group);
    lemma_vanishing_len(inst.field, p, inst.generator as int, p.spec_a());
    assert forall|s: int| 0 <= s < p.spec_a() implies (#[trigger] inst.spec_lagrange()[s]).len() == p.spec_a() by {
        assert(inst.lagrange@[s]@ == inst.spec_lagrange()[s]);
        lemma_numerator_len(inst.field, p, inst.generator as int, s, p.spec_a());
    }
}

/// Whether two coefficient lists are equal.
pub fn same_u64(a: &[u64], b: &[u64]) -> (res: bool)
    ensures
        res == (a@ == b@),
{
    if a.len() != b.len() {
        return false;
    }
    let mut i: usize = 0;
    while i < a.len()
        invariant
            a.len() == b.len(),
            i <= a.len(),
            forall|t: int| 0 <= t < i ==> a@[t] == b@[t],
        decreases a.len() - i,
    {
        if a[i] != b[i] {
            return false;
        }
        i = i + 1;
    }
    assert(a@ =~= b@);
    true
}

/// The index of the last nonzero entry, if any.
pub open spec fn last_nonzero(s: Seq<u64>) -> Option<usize> {
    if exists|i: int| 0 <= i < s.len() && s[i] != 0 {
        Some(
            (choose|i: int|
                0 <= i < s.len() && s[i] != 0 && forall|j: int| i < j < s.len() ==> s[j] == 0) as usize,
        )
    } else {
        None
    }
}

/// The summary of one successfully checked case.
#[derive(Clone, Copy, Debug)]
pub struct CaseReport {
    pub parameters: Parameters,
    pub a: usize,
    pub b: usize,
    pub degree_bound: usize,
    pub actual_degree: Option<usize>,
    pub primitive_generator: u64,
    pub residual_group: Option<usize>,
    pub checked_groups: usize,
    pub checked_evaluations: usize,
    pub passed: bool,
    pub mutation_survived: Option<bool>,
}

/// The index of the last nonzero entry, if any.
pub fn last_nonzero_index(s: &[u64]) -> (res: Option<usize>)
    ensures
        res == last_nonzero(s@),
{
    let mut i = s.len();
    while i > 0
        invariant
            i <= s.len(),
            forall|j: int| i <= j < s.len() ==> s@[j] == 0,
        decreases i,
    {
        if s[i - 1] != 0 {
            proof {
                let w = (i - 1) as int;
                assert(0 <= w < s.len() && s@[w] != 0 && forall|j: int| w < j < s.len() ==> s@[j] == 0);
                let c = choose|c: int|
                    0 <= c < s@.len() && s@[c] != 0 && forall|j: int| c < j < s@.len() ==> s@[j] == 0;
                if c < w {
                    assert(s@[w] == 0);
                }
                if c > w {
                    assert(s@[c] == 0);
                }
            }
            return Some(i - 1);
        }
        i = i - 1;
    }
    None
}

impl Instance {
    /// The generator used for the cosets.
    pub closed spec fn spec_generator(self) -> u64 {
        self.generator
    }

    /// Run every consistency check of the encoding on one message: code-space
    /// membership and dimension, local interpolation of every coset against the
    /// remainders and the source representation, residual recovery, the message
    /// round trip, and the mutation condition.
    pub fn check(&self, message: &[u64]) -> (res: Result<CaseReport>)
        requires
            self.wf(),
        ensures
            !self.valid_message(message@) ==> res is Err,
            res matches Ok(rep) ==> {
                let p = self.spec_params();
                let f = self.spec_encode(message@, self.spec_residual(message@, true));
                &&& rep.passed
                &&& rep.parameters == p
                &&& rep.a == p.spec_a()
                &&& rep.b == p.spec_b()
                &&& rep.degree_bound == p.spec_degree()
                &&& rep.primitive_generator == self.spec_generator()
                &&& rep.residual_group == self.spec_residual_group()
                &&& rep.checked_groups == p.ell
                &&& rep.checked_evaluations == p.ell * p.m
                &&& rep.actual_degree == last_nonzero(f)
                &&& self.in_code_space(f)
                &&& self.spec_decode(f) == message@
                &&& rep.mutation_survived == (if p.spec_b() != 0 {
                    Some(self.spec_mutation_condition(message@))
                } else {
                    None
                })
                &&& p.spec_b() != 0 ==> (self.spec_decode(
                    self.spec_encode(message@, self.spec_residual(message@, false)),
                ) == message@ <==> self.spec_mutation_condition(message@))
            },
    {
        let ghost q = self.field.modulus();
        let p = self.p;
        let polynomial = self.encode(message, true)?;
        proof {
            lemma_degree_facts(p, self.residual_group);
            lemma_instance_shapes(*self);
        }
        ensure(self.belongs(&polynomial), "encoded polynomial violates global support or degree")?;
        let degree = p.degree();
        let mut dimension: usize = 0;
        let mut power: usize = 0;
        while power <= degree
            invariant
                p == self.p,
                p.m > 2,
                degree == p.spec_degree(),
                degree < 65537,
                power <= degree + 1,
                dimension <= power,
            decreases degree + 1 - power,
        {
            if power % p.m < p.r {
                dimension = dimension + 1;
            }
            power = power + 1;
        }
        ensure(dimension == p.k, "incorrect dimension of global monomial space")?;
        let residual = self.residual(message, true)?;
        let a = p.a();
        assert(p.m <= p.q - 1) by (nonlinear_arith)
            requires
                p.ell * p.m <= p.q - 1,
                p.ell >= 2,
                p.m >= 0,
        ;
        let mut decoded: Vec<u64> = Vec::new();
        let mut local_polynomials: Vec<Vec<u64>> = Vec::new();
        let mut group: usize = 0;
        while group < p.ell
            invariant
                self.wf(),
                p == self.p,
                q == self.field.modulus(),
                a == p.spec_a(),
                a <= p.ell,
                p.r < p.m,
                p.m <= p.q - 1,
                p.q <= 65537,
                p.k == a * p.r + p.spec_b(),
                p.spec_b() >= 0,
                self.valid_message(message@),
                all_below(polynomial@, q),
                all_below(residual@, q),
                residual.len() <= p.r,
                group <= p.ell,
                local_polynomials.len() == group,
                forall|t: int| 0 <= t < group ==> (#[trigger] local_polynomials@[t]).len() == p.r,
            decreases p.ell - group,
        {
            let pts = &self.points[group];
            proof {
                assert(pts.len() == p.m);
                assert forall|t: int| 0 <= t < pts.len() implies #[trigger] pts@[t] < q by {
                    lemma_mod_bound(coset_beta(self.field, self.generator as int, group as int) * (pow(unit_root(self.field, p, self.generator as int), t as nat) % q), q);
                }
            }
            let mut values: Vec<u64> = Vec::new();
            let mut i: usize = 0;
            while i < pts.len()
                invariant
                    self.field.wf(),
                    q == self.field.modulus(),
                    all_below(polynomial@, q),
                    all_below(pts@, q),
                    i <= pts.len(),
                    values.len() == i,
                    all_below(values@, q),
                decreases pts.len() - i,
            {
                let v = evaluate(self.field, polynomial.as_slice(), pts[i]);
                values.push(v);
                i = i + 1;
            }
            let xs = prefix_u64(pts.as_slice(), p.r);
            let ys = prefix_u64(values.as_slice(), p.r);
            let local = interpolate(self.field, xs.as_slice(), ys.as_slice())?;
            let mut i: usize = 0;
            let mut all_match = true;
            while i < pts.len()
                invariant
                    self.field.wf(),
                    q == self.field.modulus(),
                    all_below(local@, q),
                    all_below(pts@, q),
                    values.len() == pts.len(),
                    i <= pts.len(),
                decreases pts.len() - i,
            {
                if evaluate(self.field, local.as_slice(), pts[i]) != values[i] {
                    all_match = false;
                }
                i = i + 1;
            }
            ensure(all_match, "local interpolation failed to reconstruct all coset evaluations")?;
            let remainder = self.remainder(polynomial.as_slice(), group);
            let mut high_zero = true;
            let mut i: usize = p.r;
            while i < remainder.len()
                invariant
                    p.r <= i <= remainder.len(),
                decreases remainder.len() - i,
            {
                if remainder[i] != 0 {
                    high_zero = false;
                }
                i = i + 1;
            }
            ensure(high_zero, "local restriction has degree at least r")?;
            let low = prefix_u64(remainder.as_slice(), p.r);
            ensure(same_u64(local.as_slice(), low.as_slice()), "interpolated local polynomial differs from polynomial remainder")?;
            assert(self.gamma@[group as int] < q) by {
                lemma_mod_bound(pow(coset_beta(self.field, self.generator as int, group as int), p.m as nat), q);
            }
            let mut from_sources = self.source_combination(message, self.gamma[group]);
            proof {
                assert forall|t: int| 0 <= t < self.vanishing.len() implies #[trigger] self.vanishing@[t] < q by {
                    let prev = label_vanishing(self.field, p, self.generator as int, p.spec_a() - 1);
                    lemma_mod_bound(conv_coef(prev, linear(coset_label(self.field, p, self.generator as int, p.spec_a() - 1), q), t, prev.len() as int), q);
                }
            }
            let weight = evaluate(self.field, self.vanishing.as_slice(), self.gamma[group]);
            let mut i: usize = 0;
            while i < residual.len()
                invariant
                    self.field.wf(),
                    q == self.field.modulus(),
                    residual.len() <= p.r,
                    from_sources.len() == p.r,
                    all_below(from_sources@, q),
                    all_below(residual@, q),
                    weight < q,
                    i <= residual.len(),
                decreases residual.len() - i,
            {
                let t = self.field.mul(weight, residual[i]);
                let nv = self.field.add(from_sources[i], t);
                from_sources.set(i, nv);
                i = i + 1;
            }
            ensure(same_u64(local.as_slice(), from_sources.as_slice()), "source representation differs from encoded evaluations")?;
            if group < a {
                let mut i: usize = 0;
                while i < local.len()
                    invariant
                        i <= local.len(),
                    decreases local.len() - i,
                {
                    decoded.push(local[i]);
                    i = i + 1;
                }
            }
            local_polynomials.push(local);
            group = group + 1;
        }
        if let Some(rg) = self.residual_group {
            let b = p.b();
            let lp = &local_polynomials[rg];
            let mut i: usize = 0;
            while i < b
                invariant
                    b < p.r,
                    lp.len() == p.r,
                    i <= b,
                decreases b - i,
            {
                decoded.push(lp[i]);
                i = i + 1;
            }
            let mut recovery_points: Vec<u64> = Vec::new();
            let mut j = a;
            while j < p.ell && recovery_points.len() < b
                invariant
                    self.wf(),
                    p == self.p,
                    q == self.field.modulus(),
                    a <= j <= p.ell,
                    recovery_points.len() <= b,
                    b < p.r,
                    all_below(recovery_points@, q),
                decreases p.ell - j,
            {
                let pts = &self.points[j];
                proof {
                    assert forall|t: int| 0 <= t < pts.len() implies #[trigger] pts@[t] < q by {
                        lemma_mod_bound(coset_beta(self.field, self.generator as int, j as int) * (pow(unit_root(self.field, p, self.generator as int), t as nat) % q), q);
                    }
                }
                let mut i: usize = 0;
                while i < pts.len() && recovery_points.len() < b
                    invariant
                        q == self.field.modulus(),
                        recovery_points.len() <= b,
                        all_below(recovery_points@, q),
                        all_below(pts@, q),
                        i <= pts.len(),
                    decreases pts.len() - i,
                {
                    recovery_points.push(pts[i]);
                    i = i + 1;
                }
                j = j + 1;
            }
            let mut recovered_values: Vec<u64> = Vec::new();
            let mut t: usize = 0;
            while t < recovery_points.len()
                invariant
                    self.wf(),
                    p == self.p,
                    q == self.field.modulus(),
                    a == p.spec_a(),
                    p.k == a * p.r + p.spec_b(),
                    p.spec_b() >= 0,
                    self.valid_message(message@),
                    all_below(polynomial@, q),
                    all_below(recovery_points@, q),
                    recovery_points.len() <= p.r,
                    t <= recovery_points.len(),
                    recovered_values.len() == t,
                    all_below(recovered_values@, q),
                decreases recovery_points.len() - t,
            {
                let point = recovery_points[t];
                let label = self.field.pow(point, p.m);
                let mut base: u64 = 0;
                let mut source: usize = 0;
                proof {
                    lemma_small_mod(0, q as nat);
                }
                while source < a
                    invariant
                        self.wf(),
                        p == self.p,
                        q == self.field.modulus(),
                        a == p.spec_a(),
                        p.k == a * p.r + p.spec_b(),
                        p.spec_b() >= 0,
                        self.valid_message(message@),
                        point < q,
                        label < q,
                        source <= a,
                        base < q,
                    decreases a - source,
                {
                    proof {
                        assert((source + 1) * p.r <= a * p.r) by (nonlinear_arith)
                            requires
                                source < a,
                                p.r >= 0,
                        ;
                        assert((source + 1) * p.r == source * p.r + p.r) by (nonlinear_arith);
                    }
                    let chunk = slice_u64(message, source * p.r, (source + 1) * p.r);
                    let source_value = evaluate(self.field, chunk.as_slice(), point);
                    proof {
                        lemma_lagrange_below(*self, source as int);
                        assert(self.lagrange@[source as int]@ == self.spec_lagrange()[source as int]);
                    }
                    let w = evaluate(self.field, self.lagrange[source].as_slice(), label);
                    let prod = self.field.mul(w, source_value);
                    base = self.field.add(base, prod);
                    source = source + 1;
                }
                let total = evaluate(self.field, polynomial.as_slice(), point);
                let diff = self.field.sub(total, base);
                proof {
                    assert forall|x: int| 0 <= x < self.vanishing.len() implies #[trigger] self.vanishing@[x] < q by {
                        let prev = label_vanishing(self.field, p, self.generator as int, p.spec_a() - 1);
                        lemma_mod_bound(conv_coef(prev, linear(coset_label(self.field, p, self.generator as int, p.spec_a() - 1), q), x, prev.len() as int), q);
                    }
                }
                let bl = evaluate(self.field, self.vanishing.as_slice(), label);
                let inv = self.field.inverse(bl)?;
                let v = self.field.mul(diff, inv);
                recovered_values.push(v);
                t = t + 1;
            }
            let recovered = interpolate(self.field, recovery_points.as_slice(), recovered_values.as_slice())?;
            ensure(same_u64(recovered.as_slice(), residual.as_slice()), "equation 8 residual recovery failed")?;
        }
        ensure(same_u64(decoded.as_slice(), message), "local message coordinates do not round-trip")?;
        let round = self.decode(polynomial.as_slice());
        ensure(same_u64(round.as_slice(), message), "global polynomial does not round-trip")?;
        let b = p.b();
        let mutation_survived = if b != 0 {
            let mutated = self.encode(message, false)?;
            ensure(self.belongs(&mutated), "mutation unexpectedly left the code space")?;
            let back = self.decode(mutated.as_slice());
            let survived = same_u64(back.as_slice(), message);
            ensure(survived == self.mutation_condition(message), "mutation round trip differs from equation 16")?;
            Some(survived)
        } else {
            None
        };
        let actual_degree = last_nonzero_index(polynomial.as_slice());
        assert(p.ell * p.m <= p.q - 1);
        Ok(CaseReport {
            parameters: p,
            a,
            b,
            degree_bound: degree,
            actual_degree,
            primitive_generator: self.generator,
            residual_group: self.residual_group,
            checked_groups: p.ell,
            checked_evaluations: p.ell * p.m,
            passed: true,
            mutation_survived,
        })
    }
}

/// The first `n` entries of `s`.
pub fn prefix_u64(s: &[u64], n: usize) -> (res: Vec<u64>)
    requires
        n <= s.len(),
    ensures
        res@ == s@.subrange(0, n as int),
{
    slice_u64(s, 0, n)
}

/// The entries `s[from..to]`.
pub fn slice_u64(s: &[u64], from: usize, to: usize) -> (res: Vec<u64>)
    requires
        from <= to <= s.len(),
    ensures
        res@ == s@.subrange(from as int, to as int),
{
    let mut res: Vec<u64> = Vec::new();
    let mut i = from;
    while i < to
        invariant
            from <= i <= to <= s.len(),
            res@ == s@.subrange(from as int, i as int),
        decreases to - i,
    {
        res.push(s[i]);
        i = i + 1;
        assert(res@ =~= s@.subrange(from as int, i as int));
    }
    res
}

/// Counts of the exhaustive mutation experiment over all `17^4` messages of the
/// instance `(q, m, ell, r, k) = (17, 4, 4, 3, 4)` with residual group 2.
#[derive(Clone, Copy, Debug)]
pub struct ExhaustiveReport {
    pub parameters: Parameters,
    pub source_gamma: u64,
    pub residual_gamma: u64,
    pub messages_checked: u64,
    pub correct_round_trips: u64,
    pub mutation_survivors: u64,
    pub equation16_satisfied: u64,
    pub predicted_survivors: u64,
    pub passed: bool,
}

/// The only primes dividing `96` or `192` are 2 and 3.
proof fn lemma_factors_of_96(d: int, n: int)
    requires
        n == 96 || n == 192,
        spec_is_prime(d),
        n % d == 0,
    ensures
        d == 2 || d == 3,
{
    if d != 2 && d != 3 {
        assert(d >= 2);
        lemma_small_mod(2, d as nat);
        if d < 3 {
            assert(false);
        }
        if d > 3 {
            lemma_small_mod(3, d as nat);
        }
        assert(2int % d != 0 && 3int % d != 0);
        crate::encoding_laws::lemma_product_nonzero(2, 3, d);
        crate::encoding_laws::lemma_product_nonzero(2, 6, d);
        crate::encoding_laws::lemma_product_nonzero(2, 12, d);
        crate::encoding_laws::lemma_product_nonzero(2, 24, d);
        crate::encoding_laws::lemma_product_nonzero(2, 48, d);
        crate::encoding_laws::lemma_product_nonzero(2, 96, d);
    }
}

/// A generator candidate's test needs only the prime factors 2 and 3 of `q - 1`.
proof fn lemma_generator_test_2_3(f: Field, c: int)
    requires
        f.modulus() == 97 || f.modulus() == 193,
        pow(c, ((f.modulus() - 1) / 2) as nat) % f.modulus() != 1,
        pow(c, ((f.modulus() - 1) / 3) as nat) % f.modulus() != 1,
    ensures
        f.passes_generator_test(c),
{
    assert forall|d: int| #![trigger f.prime_factor(d)] f.prime_factor(d) implies pow(c, ((f.modulus() - 1) / d) as nat)
        % f.modulus() != 1 by {
        lemma_factors_of_96(d, f.modulus() - 1);
    }
}

/// Fourth powers are taken through `m`-th powers of coset points: every point of coset `j`
/// has the coset label as its `m`-th power once `omega^m = 1`.
proof fn lemma_point_powers(f: Field, p: Parameters, g: int)
    requires
        f.modulus() > 1,
        pow(unit_root(f, p, g), p.m as nat) % f.modulus() == 1,
    ensures
        forall|j: int, i: int|
            0 <= j < p.ell && 0 <= i < p.m ==> #[trigger] (pow(coset_point(f, p, g, j, i), p.m as nat) % f.modulus())
                == coset_label(f, p, g, j),
{
    let q = f.modulus();
    let m = p.m as nat;
    let w = unit_root(f, p, g);
    assert forall|j: int, i: int| 0 <= j < p.ell && 0 <= i < p.m implies #[trigger] (pow(coset_point(f, p, g, j, i), p.m as nat)
        % f.modulus()) == coset_label(f, p, g, j) by {
        let b = coset_beta(f, g, j);
        let wi = pow(w, i as nat);
        lemma_pow_mod_noop(b * (wi % q), m, q);
        lemma_mod_twice(b * (wi % q), q);
        lemma_pow_distributes(b, wi % q, m);
        lemma_pow_mod_noop(wi, m, q);
        lemma_pow_multiplies(w, i as nat, m);
        lemma_pow_multiplies(w, m, i as nat);
        assert(i as nat * m == m * i as nat) by (nonlinear_arith);
        lemma_pow_mod_noop(pow(w, m), i as nat, q);
        lemma1_pow(i as nat);
        lemma_small_mod(1, q as nat);
        let x = pow(b, m);
        let y = pow(wi % q, m);
        assert(y % q == 1);
        lemma_mul_mod_noop_right(x, y, q);
        assert(x * 1 == x);
    }
}

/// Distinct labels make every Lagrange denominator nonzero.
proof fn lemma_denominator_nonzero(f: Field, p: Parameters, g: int, s: int, n: int)
    requires
        spec_is_prime(f.modulus()),
        0 <= s < p.ell,
        0 <= n <= p.ell,
        forall|j1: int, j2: int| 0 <= j1 < j2 < p.ell ==> coset_label(f, p, g, j1) != coset_label(f, p, g, j2),
    ensures
        lagrange_denominator(f, p, g, s, n) % f.modulus() != 0,
        0 <= lagrange_denominator(f, p, g, s, n) < f.modulus(),
    decreases n,
{
    let q = f.modulus();
    if n == 0 {
        lemma_small_mod(1, q as nat);
    } else {
        lemma_denominator_nonzero(f, p, g, s, n - 1);
        if n - 1 != s {
            let ls = coset_label(f, p, g, s);
            let lo = coset_label(f, p, g, n - 1);
            lemma_mod_bound(pow(coset_beta(f, g, s), p.m as nat), q);
            lemma_mod_bound(pow(coset_beta(f, g, n - 1), p.m as nat), q);
            assert(ls != lo) by {
                if s < n - 1 {
                    assert(coset_label(f, p, g, s) != coset_label(f, p, g, n - 1));
                } else {
                    assert(coset_label(f, p, g, n - 1) != coset_label(f, p, g, s));
                }
            }
            let dd = (ls - lo) % q;
            if dd == 0 {
                lemma_mod_sub_eq(ls, lo, q);
            }
            lemma_mod_bound(ls - lo, q);
            lemma_mod_twice(ls - lo, q);
            let prev = lagrange_denominator(f, p, g, s, n - 1);
            crate::encoding_laws::lemma_product_nonzero(prev, dd, q);
            lemma_mod_bound(prev * dd, q);
            lemma_mod_twice(prev * dd, q);
        }
    }
}

/// Squaring a power doubles its exponent, modulo `q`.
proof fn lemma_powmod_double(c: int, e: nat, q: int, v: int)
    requires
        q > 0,
        pow(c, e) % q == v,
    ensures
        pow(c, e + e) % q == (v * v) % q,
{
    lemma_pow_adds(c, e, e);
    lemma_mul_mod_noop_general(pow(c, e), pow(c, e), q);
}

/// One more factor `c`, modulo `q`.
proof fn lemma_powmod_inc(c: int, e: nat, q: int, v: int)
    requires
        q > 0,
        pow(c, e) % q == v,
    ensures
        pow(c, e + 1) % q == (v * c) % q,
{
    lemma_pow_adds(c, e, 1);
    lemma_pow1(c);
    lemma_mul_mod_noop_left(pow(c, e), c, q);
}

/// 17, 97 and 193 are prime.
proof fn lemma_prime_17()
    ensures
        spec_is_prime(17),
{
    assert(no_small_divisor(17)) by {
        assert forall|d: int| 2 <= d && #[trigger] (d * d) <= 17 implies 17int % d != 0 by {
            assert(d <= 4) by (nonlinear_arith) requires d * d <= 17, d >= 2;
            assert(d == 2 || d == 3 || d == 4);
        }
    }
    lemma_trial_division(17);
}

proof fn lemma_prime_97()
    ensures
        spec_is_prime(97),
{
    assert(no_small_divisor(97)) by {
        assert forall|d: int| 2 <= d && #[trigger] (d * d) <= 97 implies 97int % d != 0 by {
            assert(d <= 9) by (nonlinear_arith) requires d * d <= 97, d >= 2;
            assert(d == 2 || d == 3 || d == 4 || d == 5 || d == 6 || d == 7 || d == 8 || d == 9);
        }
    }
    lemma_trial_division(97);
}

proof fn lemma_prime_193()
    ensures
        spec_is_prime(193),
{
    assert(no_small_divisor(193)) by {
        assert forall|d: int| 2 <= d && #[trigger] (d * d) <= 193 implies 193int % d != 0 by {
            assert(d <= 13) by (nonlinear_arith) requires d * d <= 193, d >= 2;
            assert(d == 2 || d == 3 || d == 4 || d == 5 || d == 6 || d == 7 || d == 8 || d == 9 || d == 10 || d == 11
                || d == 12 || d == 13);
        }
    }
    lemma_trial_division(193);
}

/// The only prime dividing 16 is 2, so the generator test of `F_17` needs only 2.
proof fn lemma_generator_test_2(f: Field, c: int)
    requires
        f.modulus() == 17,
        pow(c, 8) % 17 != 1,
    ensures
        f.passes_generator_test(c),
{
    assert forall|d: int| #![trigger f.prime_factor(d)] f.prime_factor(d) implies pow(c, ((f.modulus() - 1) / d) as nat)
        % f.modulus() != 1 by {
        if d != 2 {
            lemma_small_mod(2, d as nat);
            crate::encoding_laws::lemma_product_nonzero(2, 2, d);
            crate::encoding_laws::lemma_product_nonzero(2, 4, d);
            crate::encoding_laws::lemma_product_nonzero(2, 8, d);
        }
    }
}

/// Family 1 of the enumeration (`q = 97`, `m = 8`): `5` is the least generator,
/// `omega^m = 1`, and the first 6 coset labels are distinct.
#[verifier::spinoff_prover]
proof fn lemma_family_1(p: Parameters)
    requires
        p.q == 97,
        p.m == 8,
        p.ell <= 6,
    ensures
        spec_is_prime(97),
        has_generator(field_of(97)),
        least_generator(field_of(97)) == 5,
        pow(unit_root(field_of(97), p, 5), p.m as nat) % 97 == 1,
        forall|j1: int, j2: int|
            0 <= j1 < j2 < p.ell ==> coset_label(field_of(97), p, 5, j1) != coset_label(field_of(97), p, 5, j2),
{
    let f = field_of(97);
    assert(f.modulus() == 97);
    lemma_prime_97();
    assert(!f.passes_generator_test(2)) by {
        assert(f.prime_factor(2)) by { assert(spec_is_prime(2)); }
        lemma_pow1(2int);
        assert(pow(2int, 1) % 97 == 2);
        lemma_powmod_double(2int, 1, 97, 2);
        assert(pow(2int, 2) % 97 == 4);
        lemma_powmod_inc(2int, 2, 97, 4);
        assert(pow(2int, 3) % 97 == 8);
        lemma_powmod_double(2int, 3, 97, 8);
        assert(pow(2int, 6) % 97 == 64);
        lemma_powmod_double(2int, 6, 97, 64);
        assert(pow(2int, 12) % 97 == 22);
        lemma_powmod_double(2int, 12, 97, 22);
        assert(pow(2int, 24) % 97 == 96);
        lemma_powmod_double(2int, 24, 97, 96);
        assert(pow(2int, 48) % 97 == 1);
        assert((f.modulus() - 1) / 2 == 48);
    }
    assert(!f.passes_generator_test(3)) by {
        assert(f.prime_factor(2)) by { assert(spec_is_prime(2)); }
        lemma_pow1(3int);
        assert(pow(3int, 1) % 97 == 3);
        lemma_powmod_double(3int, 1, 97, 3);
        assert(pow(3int, 2) % 97 == 9);
        lemma_powmod_inc(3int, 2, 97, 9);
        assert(pow(3int, 3) % 97 == 27);
        lemma_powmod_double(3int, 3, 97, 27);
        assert(pow(3int, 6) % 97 == 50);
        lemma_powmod_double(3int, 6, 97, 50);
        assert(pow(3int, 12) % 97 == 75);
        lemma_powmod_double(3int, 12, 97, 75);
        assert(pow(3int, 24) % 97 == 96);
        lemma_powmod_double(3int, 24, 97, 96);
        assert(pow(3int, 48) % 97 == 1);
        assert((f.modulus() - 1) / 2 == 48);
    }
    assert(!f.passes_generator_test(4)) by {
        assert(f.prime_factor(2)) by { assert(spec_is_prime(2)); }
        lemma_pow1(4int);
        assert(pow(4int, 1) % 97 == 4);
        lemma_powmod_double(4int, 1, 97, 4);
        assert(pow(4int, 2) % 97 == 16);
        lemma_powmod_inc(4int, 2, 97, 16);
        assert(pow(4int, 3) % 97 == 64);
        lemma_powmod_double(4int, 3, 97, 64);
        assert(pow(4int, 6) % 97 == 22);
        lemma_powmod_double(4int, 6, 97, 22);
        assert(pow(4int, 12) % 97 == 96);
        lemma_powmod_double(4int, 12, 97, 96);
        assert(pow(4int, 24) % 97 == 1);
        lemma_powmod_double(4int, 24, 97, 1);
        assert(pow(4int, 48) % 97 == 1);
        assert((f.modulus() - 1) / 2 == 48);
    }
    assert(f.passes_generator_test(5)) by {
        lemma_pow1(5int);
        assert(pow(5int, 1) % 97 == 5);
        lemma_powmod_double(5int, 1, 97, 5);
        assert(pow(5int, 2) % 97 == 25);
        lemma_powmod_inc(5int, 2, 97, 25);
        assert(pow(5int, 3) % 97 == 28);
        lemma_powmod_double(5int, 3, 97, 28);
        assert(pow(5int, 6) % 97 == 8);
        lemma_powmod_double(5int, 6, 97, 8);
        assert(pow(5int, 12) % 97 == 64);
        lemma_powmod_double(5int, 12, 97, 64);
        assert(pow(5int, 24) % 97 == 22);
        lemma_powmod_double(5int, 24, 97, 22);
        assert(pow(5int, 48) % 97 == 96);
        assert((f.modulus() - 1) / 2 == 48);
        lemma_pow1(5int);
        assert(pow(5int, 1) % 97 == 5);
        lemma_powmod_double(5int, 1, 97, 5);
        assert(pow(5int, 2) % 97 == 25);
        lemma_powmod_double(5int, 2, 97, 25);
        assert(pow(5int, 4) % 97 == 43);
        lemma_powmod_double(5int, 4, 97, 43);
        assert(pow(5int, 8) % 97 == 6);
        lemma_powmod_double(5int, 8, 97, 6);
        assert(pow(5int, 16) % 97 == 36);
        lemma_powmod_double(5int, 16, 97, 36);
        assert(pow(5int, 32) % 97 == 35);
        assert((f.modulus() - 1) / 3 == 32);
        lemma_generator_test_2_3(f, 5);
    }
    assert(is_least_generator(f, 5)) by {
        assert forall|c: int| 2 <= c < 5 implies !#[trigger] f.passes_generator_test(c) by {
            assert(c == 2 || c == 3 || c == 4);
        }
    }
    lemma_least_generator_unique(f, 5);
    assert(unit_root(f, p, 5) == 64) by {
        lemma_pow1(5int);
        assert(pow(5int, 1) % 97 == 5);
        lemma_powmod_double(5int, 1, 97, 5);
        assert(pow(5int, 2) % 97 == 25);
        lemma_powmod_inc(5int, 2, 97, 25);
        assert(pow(5int, 3) % 97 == 28);
        lemma_powmod_double(5int, 3, 97, 28);
        assert(pow(5int, 6) % 97 == 8);
        lemma_powmod_double(5int, 6, 97, 8);
        assert(pow(5int, 12) % 97 == 64);
        assert(((p.q - 1) / (p.m as int)) == 12);
    }
    assert(pow(64int, 8) % 97 == 1) by {
        lemma_pow1(64int);
        assert(pow(64int, 1) % 97 == 64);
        lemma_powmod_double(64int, 1, 97, 64);
        assert(pow(64int, 2) % 97 == 22);
        lemma_powmod_double(64int, 2, 97, 22);
        assert(pow(64int, 4) % 97 == 96);
        lemma_powmod_double(64int, 4, 97, 96);
        assert(pow(64int, 8) % 97 == 1);
    }
    assert(coset_label(f, p, 5, 0) == 1) by {
        lemma_pow0(5int);
        assert(pow(5int, 0) % 97 == 1);
        assert(coset_beta(f, 5, 0) == 1);
        lemma_pow1(1int);
        assert(pow(1int, 1) % 97 == 1);
        lemma_powmod_double(1int, 1, 97, 1);
        assert(pow(1int, 2) % 97 == 1);
        lemma_powmod_double(1int, 2, 97, 1);
        assert(pow(1int, 4) % 97 == 1);
        lemma_powmod_double(1int, 4, 97, 1);
        assert(pow(1int, 8) % 97 == 1);
    }
    assert(coset_label(f, p, 5, 1) == 6) by {
        lemma_pow1(5int);
        assert(pow(5int, 1) % 97 == 5);
        assert(coset_beta(f, 5, 1) == 5);
        lemma_pow1(5int);
        assert(pow(5int, 1) % 97 == 5);
        lemma_powmod_double(5int, 1, 97, 5);
        assert(pow(5int, 2) % 97 == 25);
        lemma_powmod_double(5int, 2, 97, 25);
        assert(pow(5int, 4) % 97 == 43);
        lemma_powmod_double(5int, 4, 97, 43);
        assert(pow(5int, 8) % 97 == 6);
    }
    assert(coset_label(f, p, 5, 2) == 36) by {
        lemma_pow1(5int);
        assert(pow(5int, 1) % 97 == 5);
        lemma_powmod_double(5int, 1, 97, 5);
        assert(pow(5int, 2) % 97 == 25);
        assert(coset_beta(f, 5, 2) == 25);
        lemma_pow1(25int);
        assert(pow(25int, 1) % 97 == 25);
        lemma_powmod_double(25int, 1, 97, 25);
        assert(pow(25int, 2) % 97 == 43);
        lemma_powmod_double(25int, 2, 97, 43);
        assert(pow(25int, 4) % 97 == 6);
        lemma_powmod_double(25int, 4, 97, 6);
        assert(pow(25int, 8) % 97 == 36);
    }
    assert(coset_label(f, p, 5, 3) == 22) by {
        lemma_pow1(5int);
        assert(pow(5int, 1) % 97 == 5);
        lemma_powmod_double(5int, 1, 97, 5);
        assert(pow(5int, 2) % 97 == 25);
        lemma_powmod_inc(5int, 2, 97, 25);
        assert(pow(5int, 3) % 97 == 28);
        assert(coset_beta(f, 5, 3) == 28);
        lemma_pow1(28int);
        assert(pow(28int, 1) % 97 == 28);
        lemma_powmod_double(28int, 1, 97, 28);
        assert(pow(28int, 2) % 97 == 8);
        lemma_powmod_double(28int, 2, 97, 8);
        assert(pow(28int, 4) % 97 == 64);
        lemma_powmod_double(28int, 4, 97, 64);
        assert(pow(28int, 8) % 97 == 22);
    }
    assert(coset_label(f, p, 5, 4) == 35) by {
        lemma_pow1(5int);
        assert(pow(5int, 1) % 97 == 5);
        lemma_powmod_double(5int, 1, 97, 5);
        assert(pow(5int, 2) % 97 == 25);
        lemma_powmod_double(5int, 2, 97, 25);
        assert(pow(5int, 4) % 97 == 43);
        assert(coset_beta(f, 5, 4) == 43);
        lemma_pow1(43int);
        assert(pow(43int, 1) % 97 == 43);
        lemma_powmod_double(43int, 1, 97, 43);
        assert(pow(43int, 2) % 97 == 6);
        lemma_powmod_double(43int, 2, 97, 6);
        assert(pow(43int, 4) % 97 == 36);
        lemma_powmod_double(43int, 4, 97, 36);
        assert(pow(43int, 8) % 97 == 35);
    }
    assert(coset_label(f, p, 5, 5) == 16) by {
        lemma_pow1(5int);
        assert(pow(5int, 1) % 97 == 5);
        lemma_powmod_double(5int, 1, 97, 5);
        assert(pow(5int, 2) % 97 == 25);
        lemma_powmod_double(5int, 2, 97, 25);
        assert(pow(5int, 4) % 97 == 43);
        lemma_powmod_inc(5int, 4, 97, 43);
        assert(pow(5int, 5) % 97 == 21);
        assert(coset_beta(f, 5, 5) == 21);
        lemma_pow1(21int);
        assert(pow(21int, 1) % 97 == 21);
        lemma_powmod_double(21int, 1, 97, 21);
        assert(pow(21int, 2) % 97 == 53);
        lemma_powmod_double(21int, 2, 97, 53);
        assert(pow(21int, 4) % 97 == 93);
        lemma_powmod_double(21int, 4, 97, 93);
        assert(pow(21int, 8) % 97 == 16);
    }
    assert forall|j1: int, j2: int| 0 <= j1 < j2 < p.ell implies coset_label(f, p, 5, j1) != coset_label(f, p, 5, j2) by {
        assert(j1 == 0 || j1 == 1 || j1 == 2 || j1 == 3 || j1 == 4 || j1 == 5);
        assert(j2 == 0 || j2 == 1 || j2 == 2 || j2 == 3 || j2 == 4 || j2 == 5);
    }
}


/// Family 2 of the enumeration (`q = 97`, `m = 12`): `5` is the least generator,
/// `omega^m = 1`, and the first 8 coset labels are distinct.
#[verifier::spinoff_prover]
proof fn lemma_family_2(p: Parameters)
    requires
        p.q == 97,
        p.m == 12,
        p.ell <= 8,
    ensures
        spec_is_prime(97),
        has_generator(field_of(97)),
        least_generator(field_of(97)) == 5,
        pow(unit_root(field_of(97), p, 5), p.m as nat) % 97 == 1,
        forall|j1: int, j2: int|
            0 <= j1 < j2 < p.ell ==> coset_label(field_of(97), p, 5, j1) != coset_label(field_of(97), p, 5, j2),
{
    let f = field_of(97);
    assert(f.modulus() == 97);
    lemma_prime_97();
    assert(!f.passes_generator_test(2)) by {
        assert(f.prime_factor(2)) by { assert(spec_is_prime(2)); }
        lemma_pow1(2int);
        assert(pow(2int, 1) % 97 == 2);
        lemma_powmod_double(2int, 1, 97, 2);
        assert(pow(2int, 2) % 97 == 4);
        lemma_powmod_inc(2int, 2, 97, 4);
        assert(pow(2int, 3) % 97 == 8);
        lemma_powmod_double(2int, 3, 97, 8);
        assert(pow(2int, 6) % 97 == 64);
        lemma_powmod_double(2int, 6, 97, 64);
        assert(pow(2int, 12) % 97 == 22);
        lemma_powmod_double(2int, 12, 97, 22);
        assert(pow(2int, 24) % 97 == 96);
        lemma_powmod_double(2int, 24, 97, 96);
        assert(pow(2int, 48) % 97 == 1);
        assert((f.modulus() - 1) / 2 == 48);
    }
    assert(!f.passes_generator_test(3)) by {
        assert(f.prime_factor(2)) by { assert(spec_is_prime(2)); }
        lemma_pow1(3int);
        assert(pow(3int, 1) % 97 == 3);
        lemma_powmod_double(3int, 1, 97, 3);
        assert(pow(3int, 2) % 97 == 9);
        lemma_powmod_inc(3int, 2, 97, 9);
        assert(pow(3int, 3) % 97 == 27);
        lemma_powmod_double(3int, 3, 97, 27);
        assert(pow(3int, 6) % 97 == 50);
        lemma_powmod_double(3int, 6, 97, 50);
        assert(pow(3int, 12) % 97 == 75);
        lemma_powmod_double(3int, 12, 97, 75);
        assert(pow(3int, 24) % 97 == 96);
        lemma_powmod_double(3int, 24, 97, 96);
        assert(pow(3int, 48) % 97 == 1);
        assert((f.modulus() - 1) / 2 == 48);
    }
    assert(!f.passes_generator_test(4)) by {
        assert(f.prime_factor(2)) by { assert(spec_is_prime(2)); }
        lemma_pow1(4int);
        assert(pow(4int, 1) % 97 == 4);
        lemma_powmod_double(4int, 1, 97, 4);
        assert(pow(4int, 2) % 97 == 16);
        lemma_powmod_inc(4int, 2, 97, 16);
        assert(pow(4int, 3) % 97 == 64);
        lemma_powmod_double(4int, 3, 97, 64);
        assert(pow(4int, 6) % 97 == 22);
        lemma_powmod_double(4int, 6, 97, 22);
        assert(pow(4int, 12) % 97 == 96);
        lemma_powmod_double(4int, 12, 97, 96);
        assert(pow(4int, 24) % 97 == 1);
        lemma_powmod_double(4int, 24, 97, 1);
        assert(pow(4int, 48) % 97 == 1);
        assert((f.modulus() - 1) / 2 == 48);
    }
    assert(f.passes_generator_test(5)) by {
        lemma_pow1(5int);
        assert(pow(5int, 1) % 97 == 5);
        lemma_powmod_double(5int, 1, 97, 5);
        assert(pow(5int, 2) % 97 == 25);
        lemma_powmod_inc(5int, 2, 97, 25);
        assert(pow(5int, 3) % 97 == 28);
        lemma_powmod_double(5int, 3, 97, 28);
        assert(pow(5int, 6) % 97 == 8);
        lemma_powmod_double(5int, 6, 97, 8);
        assert(pow(5int, 12) % 97 == 64);
        lemma_powmod_double(5int, 12, 97, 64);
        assert(pow(5int, 24) % 97 == 22);
        lemma_powmod_double(5int, 24, 97, 22);
        assert(pow(5int, 48) % 97 == 96);
        assert((f.modulus() - 1) / 2 == 48);
        lemma_pow1(5int);
        assert(pow(5int, 1) % 97 == 5);
        lemma_powmod_double(5int, 1, 97, 5);
        assert(pow(5int, 2) % 97 == 25);
        lemma_powmod_double(5int, 2, 97, 25);
        assert(pow(5int, 4) % 97 == 43);
        lemma_powmod_double(5int, 4, 97, 43);
        assert(pow(5int, 8) % 97 == 6);
        lemma_powmod_double(5int, 8, 97, 6);
        assert(pow(5int, 16) % 97 == 36);
        lemma_powmod_double(5int, 16, 97, 36);
        assert(pow(5int, 32) % 97 == 35);
        assert((f.modulus() - 1) / 3 == 32);
        lemma_generator_test_2_3(f, 5);
    }
    assert(is_least_generator(f, 5)) by {
        assert forall|c: int| 2 <= c < 5 implies !#[trigger] f.passes_generator_test(c) by {
            assert(c == 2 || c == 3 || c == 4);
        }
    }
    lemma_least_generator_unique(f, 5);
    assert(unit_root(f, p, 5) == 6) by {
        lemma_pow1(5int);
        assert(pow(5int, 1) % 97 == 5);
        lemma_powmod_double(5int, 1, 97, 5);
        assert(pow(5int, 2) % 97 == 25);
        lemma_powmod_double(5int, 2, 97, 25);
        assert(pow(5int, 4) % 97 == 43);
        lemma_powmod_double(5int, 4, 97, 43);
        assert(pow(5int, 8) % 97 == 6);
        assert(((p.q - 1) / (p.m as int)) == 8);
    }
    assert(pow(6int, 12) % 97 == 1) by {
        lemma_pow1(6int);
        assert(pow(6int, 1) % 97 == 6);
        lemma_powmod_double(6int, 1, 97, 6);
        assert(pow(6int, 2) % 97 == 36);
        lemma_powmod_inc(6int, 2, 97, 36);
        assert(pow(6int, 3) % 97 == 22);
        lemma_powmod_double(6int, 3, 97, 22);
        assert(pow(6int, 6) % 97 == 96);
        lemma_powmod_double(6int, 6, 97, 96);
        assert(pow(6int, 12) % 97 == 1);
    }
    assert(coset_label(f, p, 5, 0) == 1) by {
        lemma_pow0(5int);
        assert(pow(5int, 0) % 97 == 1);
        assert(coset_beta(f, 5, 0) == 1);
        lemma_pow1(1int);
        assert(pow(1int, 1) % 97 == 1);
        lemma_powmod_double(1int, 1, 97, 1);
        assert(pow(1int, 2) % 97 == 1);
        lemma_powmod_inc(1int, 2, 97, 1);
        assert(pow(1int, 3) % 97 == 1);
        lemma_powmod_double(1int, 3, 97, 1);
        assert(pow(1int, 6) % 97 == 1);
        lemma_powmod_double(1int, 6, 97, 1);
        assert(pow(1int, 12) % 97 == 1);
    }
    assert(coset_label(f, p, 5, 1) == 64) by {
        lemma_pow1(5int);
        assert(pow(5int, 1) % 97 == 5);
        assert(coset_beta(f, 5, 1) == 5);
        lemma_pow1(5int);
        assert(pow(5int, 1) % 97 == 5);
        lemma_powmod_double(5int, 1, 97, 5);
        assert(pow(5int, 2) % 97 == 25);
        lemma_powmod_inc(5int, 2, 97, 25);
        assert(pow(5int, 3) % 97 == 28);
        lemma_powmod_double(5int, 3, 97, 28);
        assert(pow(5int, 6) % 97 == 8);
        lemma_powmod_double(5int, 6, 97, 8);
        assert(pow(5int, 12) % 97 == 64);
    }
    assert(coset_label(f, p, 5, 2) == 22) by {
        lemma_pow1(5int);
        assert(pow(5int, 1) % 97 == 5);
        lemma_powmod_double(5int, 1, 97, 5);
        assert(pow(5int, 2) % 97 == 25);
        assert(coset_beta(f, 5, 2) == 25);
        lemma_pow1(25int);
        assert(pow(25int, 1) % 97 == 25);
        lemma_powmod_double(25int, 1, 97, 25);
        assert(pow(25int, 2) % 97 == 43);
        lemma_powmod_inc(25int, 2, 97, 43);
        assert(pow(25int, 3) % 97 == 8);
        lemma_powmod_double(25int, 3, 97, 8);
        assert(pow(25int, 6) % 97 == 64);
        lemma_powmod_double(25int, 6, 97, 64);
        assert(pow(25int, 12) % 97 == 22);
    }
    assert(coset_label(f, p, 5, 3) == 50) by {
        lemma_pow1(5int);
        assert(pow(5int, 1) % 97 == 5);
        lemma_powmod_double(5int, 1, 97, 5);
        assert(pow(5int, 2) % 97 == 25);
        lemma_powmod_inc(5int, 2, 97, 25);
        assert(pow(5int, 3) % 97 == 28);
        assert(coset_beta(f, 5, 3) == 28);
        lemma_pow1(28int);
        assert(pow(28int, 1) % 97 == 28);
        lemma_powmod_double(28int, 1, 97, 28);
        assert(pow(28int, 2) % 97 == 8);
        lemma_powmod_inc(28int, 2, 97, 8);
        assert(pow(28int, 3) % 97 == 30);
        lemma_powmod_double(28int, 3, 97, 30);
        assert(pow(28int, 6) % 97 == 27);
        lemma_powmod_double(28int, 6, 97, 27);
        assert(pow(28int, 12) % 97 == 50);
    }
    assert(coset_label(f, p, 5, 4) == 96) by {
        lemma_pow1(5int);
        assert(pow(5int, 1) % 97 == 5);
        lemma_powmod_double(5int, 1, 97, 5);
        assert(pow(5int, 2) % 97 == 25);
        lemma_powmod_double(5int, 2, 97, 25);
        assert(pow(5int, 4) % 97 == 43);
        assert(coset_beta(f, 5, 4) == 43);
        lemma_pow1(43int);
        assert(pow(43int, 1) % 97 == 43);
        lemma_powmod_double(43int, 1, 97, 43);
        assert(pow(43int, 2) % 97 == 6);
        lemma_powmod_inc(43int, 2, 97, 6);
        assert(pow(43int, 3) % 97 == 64);
        lemma_powmod_double(43int, 3, 97, 64);
        assert(pow(43int, 6) % 97 == 22);
        lemma_powmod_double(43int, 6, 97, 22);
        assert(pow(43int, 12) % 97 == 96);
    }
    assert(coset_label(f, p, 5, 5) == 33) by {
        lemma_pow1(5int);
        assert(pow(5int, 1) % 97 == 5);
        lemma_powmod_double(5int, 1, 97, 5);
        assert(pow(5int, 2) % 97 == 25);
        lemma_powmod_double(5int, 2, 97, 25);
        assert(pow(5int, 4) % 97 == 43);
        lemma_powmod_inc(5int, 4, 97, 43);
        assert(pow(5int, 5) % 97 == 21);
        assert(coset_beta(f, 5, 5) == 21);
        lemma_pow1(21int);
        assert(pow(21int, 1) % 97 == 21);
        lemma_powmod_double(21int, 1, 97, 21);
        assert(pow(21int, 2) % 97 == 53);
        lemma_powmod_inc(21int, 2, 97, 53);
        assert(pow(21int, 3) % 97 == 46);
        lemma_powmod_double(21int, 3, 97, 46);
        assert(pow(21int, 6) % 97 == 79);
        lemma_powmod_double(21int, 6, 97, 79);
        assert(pow(21int, 12) % 97 == 33);
    }
    assert(coset_label(f, p, 5, 6) == 75) by {
        lemma_pow1(5int);
        assert(pow(5int, 1) % 97 == 5);
        lemma_powmod_double(5int, 1, 97, 5);
        assert(pow(5int, 2) % 97 == 25);
        lemma_powmod_inc(5int, 2, 97, 25);
        assert(pow(5int, 3) % 97 == 28);
        lemma_powmod_double(5int, 3, 97, 28);
        assert(pow(5int, 6) % 97 == 8);
        assert(coset_beta(f, 5, 6) == 8);
        lemma_pow1(8int);
        assert(pow(8int, 1) % 97 == 8);
        lemma_powmod_double(8int, 1, 97, 8);
        assert(pow(8int, 2) % 97 == 64);
        lemma_powmod_inc(8int, 2, 97, 64);
        assert(pow(8int, 3) % 97 == 27);
        lemma_powmod_double(8int, 3, 97, 27);
        assert(pow(8int, 6) % 97 == 50);
        lemma_powmod_double(8int, 6, 97, 50);
        assert(pow(8int, 12) % 97 == 75);
    }
    assert(coset_label(f, p, 5, 7) == 47) by {
        lemma_pow1(5int);
        assert(pow(5int, 1) % 97 == 5);
        lemma_powmod_double(5int, 1, 97, 5);
        assert(pow(5int, 2) % 97 == 25);
        lemma_powmod_inc(5int, 2, 97, 25);
        assert(pow(5int, 3) % 97 == 28);
        lemma_powmod_double(5int, 3, 97, 28);
        assert(pow(5int, 6) % 97 == 8);
        lemma_powmod_inc(5int, 6, 97, 8);
        assert(pow(5int, 7) % 97 == 40);
        assert(coset_beta(f, 5, 7) == 40);
        lemma_pow1(40int);
        assert(pow(40int, 1) % 97 == 40);
        lemma_powmod_double(40int, 1, 97, 40);
        assert(pow(40int, 2) % 97 == 48);
        lemma_powmod_inc(40int, 2, 97, 48);
        assert(pow(40int, 3) % 97 == 77);
        lemma_powmod_double(40int, 3, 97, 77);
        assert(pow(40int, 6) % 97 == 12);
        lemma_powmod_double(40int, 6, 97, 12);
        assert(pow(40int, 12) % 97 == 47);
    }
    assert forall|j1: int, j2: int| 0 <= j1 < j2 < p.ell implies coset_label(f, p, 5, j1) != coset_label(f, p, 5, j2) by {
        assert(j1 == 0 || j1 == 1 || j1 == 2 || j1 == 3 || j1 == 4 || j1 == 5 || j1 == 6 || j1 == 7);
        assert(j2 == 0 || j2 == 1 || j2 == 2 || j2 == 3 || j2 == 4 || j2 == 5 || j2 == 6 || j2 == 7);
    }
}


/// Family 3 of the enumeration (`q = 193`, `m = 16`): `5` is the least generator,
/// `omega^m = 1`, and the first 8 coset labels are distinct.
#[verifier::spinoff_prover]
proof fn lemma_family_3(p: Parameters)
    requires
        p.q == 193,
        p.m == 16,
        p.ell <= 8,
    ensures
        spec_is_prime(193),
        has_generator(field_of(193)),
        least_generator(field_of(193)) == 5,
        pow(unit_root(field_of(193), p, 5), p.m as nat) % 193 == 1,
        forall|j1: int, j2: int|
            0 <= j1 < j2 < p.ell ==> coset_label(field_of(193), p, 5, j1) != coset_label(field_of(193), p, 5, j2),
{
    let f = field_of(193);
    assert(f.modulus() == 193);
    lemma_prime_193();
    assert(!f.passes_generator_test(2)) by {
        assert(f.prime_factor(2)) by { assert(spec_is_prime(2)); }
        lemma_pow1(2int);
        assert(pow(2int, 1) % 193 == 2);
        lemma_powmod_double(2int, 1, 193, 2);
        assert(pow(2int, 2) % 193 == 4);
        lemma_powmod_inc(2int, 2, 193, 4);
        assert(pow(2int, 3) % 193 == 8);
        lemma_powmod_double(2int, 3, 193, 8);
        assert(pow(2int, 6) % 193 == 64);
        lemma_powmod_double(2int, 6, 193, 64);
        assert(pow(2int, 12) % 193 == 43);
        lemma_powmod_double(2int, 12, 193, 43);
        assert(pow(2int, 24) % 193 == 112);
        lemma_powmod_double(2int, 24, 193, 112);
        assert(pow(2int, 48) % 193 == 192);
        lemma_powmod_double(2int, 48, 193, 192);
        assert(pow(2int, 96) % 193 == 1);
        assert((f.modulus() - 1) / 2 == 96);
    }
    assert(!f.passes_generator_test(3)) by {
        assert(f.prime_factor(2)) by { assert(spec_is_prime(2)); }
        lemma_pow1(3int);
        assert(pow(3int, 1) % 193 == 3);
        lemma_powmod_double(3int, 1, 193, 3);
        assert(pow(3int, 2) % 193 == 9);
        lemma_powmod_inc(3int, 2, 193, 9);
        assert(pow(3int, 3) % 193 == 27);
        lemma_powmod_double(3int, 3, 193, 27);
        assert(pow(3int, 6) % 193 == 150);
        lemma_powmod_double(3int, 6, 193, 150);
        assert(pow(3int, 12) % 193 == 112);
        lemma_powmod_double(3int, 12, 193, 112);
        assert(pow(3int, 24) % 193 == 192);
        lemma_powmod_double(3int, 24, 193, 192);
        assert(pow(3int, 48) % 193 == 1);
        lemma_powmod_double(3int, 48, 193, 1);
        assert(pow(3int, 96) % 193 == 1);
        assert((f.modulus() - 1) / 2 == 96);
    }
    assert(!f.passes_generator_test(4)) by {
        assert(f.prime_factor(2)) by { assert(spec_is_prime(2)); }
        lemma_pow1(4int);
        assert(pow(4int, 1) % 193 == 4);
        lemma_powmod_double(4int, 1, 193, 4);
        assert(pow(4int, 2) % 193 == 16);
        lemma_powmod_inc(4int, 2, 193, 16);
        assert(pow(4int, 3) % 193 == 64);
        lemma_powmod_double(4int, 3, 193, 64);
        assert(pow(4int, 6) % 193 == 43);
        lemma_powmod_double(4int, 6, 193, 43);
        assert(pow(4int, 12) % 193 == 112);
        lemma_powmod_double(4int, 12, 193, 112);
        assert(pow(4int, 24) % 193 == 192);
        lemma_powmod_double(4int, 24, 193, 192);
        assert(pow(4int, 48) % 193 == 1);
        lemma_powmod_double(4int, 48, 193, 1);
        assert(pow(4int, 96) % 193 == 1);
        assert((f.modulus() - 1) / 2 == 96);
    }
    assert(f.passes_generator_test(5)) by {
        lemma_pow1(5int);
        assert(pow(5int, 1) % 193 == 5);
        lemma_powmod_double(5int, 1, 193, 5);
        assert(pow(5int, 2) % 193 == 25);
        lemma_powmod_inc(5int, 2, 193, 25);
        assert(pow(5int, 3) % 193 == 125);
        lemma_powmod_double(5int, 3, 193, 125);
        assert(pow(5int, 6) % 193 == 185);
        lemma_powmod_double(5int, 6, 193, 185);
        assert(pow(5int, 12) % 193 == 64);
        lemma_powmod_double(5int, 12, 193, 64);
        assert(pow(5int, 24) % 193 == 43);
        lemma_powmod_double(5int, 24, 193, 43);
        assert(pow(5int, 48) % 193 == 112);
        lemma_powmod_double(5int, 48, 193, 112);
        assert(pow(5int, 96) % 193 == 192);
        assert((f.modulus() - 1) / 2 == 96);
        lemma_pow1(5int);
        assert(pow(5int, 1) % 193 == 5);
        lemma_powmod_double(5int, 1, 193, 5);
        assert(pow(5int, 2) % 193 == 25);
        lemma_powmod_double(5int, 2, 193, 25);
        assert(pow(5int, 4) % 193 == 46);
        lemma_powmod_double(5int, 4, 193, 46);
        assert(pow(5int, 8) % 193 == 186);
        lemma_powmod_double(5int, 8, 193, 186);
        assert(pow(5int, 16) % 193 == 49);
        lemma_powmod_double(5int, 16, 193, 49);
        assert(pow(5int, 32) % 193 == 85);
        lemma_powmod_double(5int, 32, 193, 85);
        assert(pow(5int, 64) % 193 == 84);
        assert((f.modulus() - 1) / 3 == 64);
        lemma_generator_test_2_3(f, 5);
    }
    assert(is_least_generator(f, 5)) by {
        assert forall|c: int| 2 <= c < 5 implies !#[trigger] f.passes_generator_test(c) by {
            assert(c == 2 || c == 3 || c == 4);
        }
    }
    lemma_least_generator_unique(f, 5);
    assert(unit_root(f, p, 5) == 64) by {
        lemma_pow1(5int);
        assert(pow(5int, 1) % 193 == 5);
        lemma_powmod_double(5int, 1, 193, 5);
        assert(pow(5int, 2) % 193 == 25);
        lemma_powmod_inc(5int, 2, 193, 25);
        assert(pow(5int, 3) % 193 == 125);
        lemma_powmod_double(5int, 3, 193, 125);
        assert(pow(5int, 6) % 193 == 185);
        lemma_powmod_double(5int, 6, 193, 185);
        assert(pow(5int, 12) % 193 == 64);
        assert(((p.q - 1) / (p.m as int)) == 12);
    }
    assert(pow(64int, 16) % 193 == 1) by {
        lemma_pow1(64int);
        assert(pow(64int, 1) % 193 == 64);
        lemma_powmod_double(64int, 1, 193, 64);
        assert(pow(64int, 2) % 193 == 43);
        lemma_powmod_double(64int, 2, 193, 43);
        assert(pow(64int, 4) % 193 == 112);
        lemma_powmod_double(64int, 4, 193, 112);
        assert(pow(64int, 8) % 193 == 192);
        lemma_powmod_double(64int, 8, 193, 192);
        assert(pow(64int, 16) % 193 == 1);
    }
    assert(coset_label(f, p, 5, 0) == 1) by {
        lemma_pow0(5int);
        assert(pow(5int, 0) % 193 == 1);
        assert(coset_beta(f, 5, 0) == 1);
        lemma_pow1(1int);
        assert(pow(1int, 1) % 193 == 1);
        lemma_powmod_double(1int, 1, 193, 1);
        assert(pow(1int, 2) % 193 == 1);
        lemma_powmod_double(1int, 2, 193, 1);
        assert(pow(1int, 4) % 193 == 1);
        lemma_powmod_double(1int, 4, 193, 1);
        assert(pow(1int, 8) % 193 == 1);
        lemma_powmod_double(1int, 8, 193, 1);
        assert(pow(1int, 16) % 193 == 1);
    }
    assert(coset_label(f, p, 5, 1) == 49) by {
        lemma_pow1(5int);
        assert(pow(5int, 1) % 193 == 5);
        assert(coset_beta(f, 5, 1) == 5);
        lemma_pow1(5int);
        assert(pow(5int, 1) % 193 == 5);
        lemma_powmod_double(5int, 1, 193, 5);
        assert(pow(5int, 2) % 193 == 25);
        lemma_powmod_double(5int, 2, 193, 25);
        assert(pow(5int, 4) % 193 == 46);
        lemma_powmod_double(5int, 4, 193, 46);
        assert(pow(5int, 8) % 193 == 186);
        lemma_powmod_double(5int, 8, 193, 186);
        assert(pow(5int, 16) % 193 == 49);
    }
    assert(coset_label(f, p, 5, 2) == 85) by {
        lemma_pow1(5int);
        assert(pow(5int, 1) % 193 == 5);
        lemma_powmod_double(5int, 1, 193, 5);
        assert(pow(5int, 2) % 193 == 25);
        assert(coset_beta(f, 5, 2) == 25);
        lemma_pow1(25int);
        assert(pow(25int, 1) % 193 == 25);
        lemma_powmod_double(25int, 1, 193, 25);
        assert(pow(25int, 2) % 193 == 46);
        lemma_powmod_double(25int, 2, 193, 46);
        assert(pow(25int, 4) % 193 == 186);
        lemma_powmod_double(25int, 4, 193, 186);
        assert(pow(25int, 8) % 193 == 49);
        lemma_powmod_double(25int, 8, 193, 49);
        assert(pow(25int, 16) % 193 == 85);
    }
    assert(coset_label(f, p, 5, 3) == 112) by {
        lemma_pow1(5int);
        assert(pow(5int, 1) % 193 == 5);
        lemma_powmod_double(5int, 1, 193, 5);
        assert(pow(5int, 2) % 193 == 25);
        lemma_powmod_inc(5int, 2, 193, 25);
        assert(pow(5int, 3) % 193 == 125);
        assert(coset_beta(f, 5, 3) == 125);
        lemma_pow1(125int);
        assert(pow(125int, 1) % 193 == 125);
        lemma_powmod_double(125int, 1, 193, 125);
        assert(pow(125int, 2) % 193 == 185);
        lemma_powmod_double(125int, 2, 193, 185);
        assert(pow(125int, 4) % 193 == 64);
        lemma_powmod_double(125int, 4, 193, 64);
        assert(pow(125int, 8) % 193 == 43);
        lemma_powmod_double(125int, 8, 193, 43);
        assert(pow(125int, 16) % 193 == 112);
    }
    assert(coset_label(f, p, 5, 4) == 84) by {
        lemma_pow1(5int);
        assert(pow(5int, 1) % 193 == 5);
        lemma_powmod_double(5int, 1, 193, 5);
        assert(pow(5int, 2) % 193 == 25);
        lemma_powmod_double(5int, 2, 193, 25);
        assert(pow(5int, 4) % 193 == 46);
        assert(coset_beta(f, 5, 4) == 46);
        lemma_pow1(46int);
        assert(pow(46int, 1) % 193 == 46);
        lemma_powmod_double(46int, 1, 193, 46);
        assert(pow(46int, 2) % 193 == 186);
        lemma_powmod_double(46int, 2, 193, 186);
        assert(pow(46int, 4) % 193 == 49);
        lemma_powmod_double(46int, 4, 193, 49);
        assert(pow(46int, 8) % 193 == 85);
        lemma_powmod_double(46int, 8, 193, 85);
        assert(pow(46int, 16) % 193 == 84);
    }
    assert(coset_label(f, p, 5, 5) == 63) by {
        lemma_pow1(5int);
        assert(pow(5int, 1) % 193 == 5);
        lemma_powmod_double(5int, 1, 193, 5);
        assert(pow(5int, 2) % 193 == 25);
        lemma_powmod_double(5int, 2, 193, 25);
        assert(pow(5int, 4) % 193 == 46);
        lemma_powmod_inc(5int, 4, 193, 46);
        assert(pow(5int, 5) % 193 == 37);
        assert(coset_beta(f, 5, 5) == 37);
        lemma_pow1(37int);
        assert(pow(37int, 1) % 193 == 37);
        lemma_powmod_double(37int, 1, 193, 37);
        assert(pow(37int, 2) % 193 == 18);
        lemma_powmod_double(37int, 2, 193, 18);
        assert(pow(37int, 4) % 193 == 131);
        lemma_powmod_double(37int, 4, 193, 131);
        assert(pow(37int, 8) % 193 == 177);
        lemma_powmod_double(37int, 8, 193, 177);
        assert(pow(37int, 16) % 193 == 63);
    }
    assert(coset_label(f, p, 5, 6) == 192) by {
        lemma_pow1(5int);
        assert(pow(5int, 1) % 193 == 5);
        lemma_powmod_double(5int, 1, 193, 5);
        assert(pow(5int, 2) % 193 == 25);
        lemma_powmod_inc(5int, 2, 193, 25);
        assert(pow(5int, 3) % 193 == 125);
        lemma_powmod_double(5int, 3, 193, 125);
        assert(pow(5int, 6) % 193 == 185);
        assert(coset_beta(f, 5, 6) == 185);
        lemma_pow1(185int);
        assert(pow(185int, 1) % 193 == 185);
        lemma_powmod_double(185int, 1, 193, 185);
        assert(pow(185int, 2) % 193 == 64);
        lemma_powmod_double(185int, 2, 193, 64);
        assert(pow(185int, 4) % 193 == 43);
        lemma_powmod_double(185int, 4, 193, 43);
        assert(pow(185int, 8) % 193 == 112);
        lemma_powmod_double(185int, 8, 193, 112);
        assert(pow(185int, 16) % 193 == 192);
    }
    assert(coset_label(f, p, 5, 7) == 144) by {
        lemma_pow1(5int);
        assert(pow(5int, 1) % 193 == 5);
        lemma_powmod_double(5int, 1, 193, 5);
        assert(pow(5int, 2) % 193 == 25);
        lemma_powmod_inc(5int, 2, 193, 25);
        assert(pow(5int, 3) % 193 == 125);
        lemma_powmod_double(5int, 3, 193, 125);
        assert(pow(5int, 6) % 193 == 185);
        lemma_powmod_inc(5int, 6, 193, 185);
        assert(pow(5int, 7) % 193 == 153);
        assert(coset_beta(f, 5, 7) == 153);
        lemma_pow1(153int);
        assert(pow(153int, 1) % 193 == 153);
        lemma_powmod_double(153int, 1, 193, 153);
        assert(pow(153int, 2) % 193 == 56);
        lemma_powmod_double(153int, 2, 193, 56);
        assert(pow(153int, 4) % 193 == 48);
        lemma_powmod_double(153int, 4, 193, 48);
        assert(pow(153int, 8) % 193 == 181);
        lemma_powmod_double(153int, 8, 193, 181);
        assert(pow(153int, 16) % 193 == 144);
    }
    assert forall|j1: int, j2: int| 0 <= j1 < j2 < p.ell implies coset_label(f, p, 5, j1) != coset_label(f, p, 5, j2) by {
        assert(j1 == 0 || j1 == 1 || j1 == 2 || j1 == 3 || j1 == 4 || j1 == 5 || j1 == 6 || j1 == 7);
        assert(j2 == 0 || j2 == 1 || j2 == 2 || j2 == 3 || j2 == 4 || j2 == 5 || j2 == 6 || j2 == 7);
    }
}


/// Family 0 of the enumeration (`q = 17`, `m = 4`): `3` is the least generator,
/// `omega^m = 1`, and the first 4 coset labels are distinct.
#[verifier::spinoff_prover]
proof fn lemma_family_0(p: Parameters)
    requires
        p.q == 17,
        p.m == 4,
        p.ell <= 4,
    ensures
        spec_is_prime(17),
        has_generator(field_of(17)),
        least_generator(field_of(17)) == 3,
        pow(unit_root(field_of(17), p, 3), p.m as nat) % 17 == 1,
        forall|j1: int, j2: int|
            0 <= j1 < j2 < p.ell ==> coset_label(field_of(17), p, 3, j1) != coset_label(field_of(17), p, 3, j2),
{
    let f = field_of(17);
    assert(f.modulus() == 17);
    lemma_prime_17();
    assert(!f.passes_generator_test(2)) by {
        assert(f.prime_factor(2)) by { assert(spec_is_prime(2)); }
        lemma_pow1(2int);
        assert(pow(2int, 1) % 17 == 2);
        lemma_powmod_double(2int, 1, 17, 2);
        assert(pow(2int, 2) % 17 == 4);
        lemma_powmod_double(2int, 2, 17, 4);
        assert(pow(2int, 4) % 17 == 16);
        lemma_powmod_double(2int, 4, 17, 16);
        assert(pow(2int, 8) % 17 == 1);
        assert((f.modulus() - 1) / 2 == 8);
    }
    assert(f.passes_generator_test(3)) by {
        lemma_pow1(3int);
        assert(pow(3int, 1) % 17 == 3);
        lemma_powmod_double(3int, 1, 17, 3);
        assert(pow(3int, 2) % 17 == 9);
        lemma_powmod_double(3int, 2, 17, 9);
        assert(pow(3int, 4) % 17 == 13);
        lemma_powmod_double(3int, 4, 17, 13);
        assert(pow(3int, 8) % 17 == 16);
        assert((f.modulus() - 1) / 2 == 8);
        lemma_generator_test_2(f, 3);
    }
    assert(is_least_generator(f, 3)) by {
        assert forall|c: int| 2 <= c < 3 implies !#[trigger] f.passes_generator_test(c) by {
            assert(c == 2);
        }
    }
    lemma_least_generator_unique(f, 3);
    assert(unit_root(f, p, 3) == 13) by {
        lemma_pow1(3int);
        assert(pow(3int, 1) % 17 == 3);
        lemma_powmod_double(3int, 1, 17, 3);
        assert(pow(3int, 2) % 17 == 9);
        lemma_powmod_double(3int, 2, 17, 9);
        assert(pow(3int, 4) % 17 == 13);
        assert(((p.q - 1) / (p.m as int)) == 4);
    }
    assert(pow(13int, 4) % 17 == 1) by {
        lemma_pow1(13int);
        assert(pow(13int, 1) % 17 == 13);
        lemma_powmod_double(13int, 1, 17, 13);
        assert(pow(13int, 2) % 17 == 16);
        lemma_powmod_double(13int, 2, 17, 16);
        assert(pow(13int, 4) % 17 == 1);
    }
    assert(coset_label(f, p, 3, 0) == 1) by {
        lemma_pow0(3int);
        assert(pow(3int, 0) % 17 == 1);
        assert(coset_beta(f, 3, 0) == 1);
        lemma_pow1(1int);
        assert(pow(1int, 1) % 17 == 1);
        lemma_powmod_double(1int, 1, 17, 1);
        assert(pow(1int, 2) % 17 == 1);
        lemma_powmod_double(1int, 2, 17, 1);
        assert(pow(1int, 4) % 17 == 1);
    }
    assert(coset_label(f, p, 3, 1) == 13) by {
        lemma_pow1(3int);
        assert(pow(3int, 1) % 17 == 3);
        assert(coset_beta(f, 3, 1) == 3);
        lemma_pow1(3int);
        assert(pow(3int, 1) % 17 == 3);
        lemma_powmod_double(3int, 1, 17, 3);
        assert(pow(3int, 2) % 17 == 9);
        lemma_powmod_double(3int, 2, 17, 9);
        assert(pow(3int, 4) % 17 == 13);
    }
    assert(coset_label(f, p, 3, 2) == 16) by {
        lemma_pow1(3int);
        assert(pow(3int, 1) % 17 == 3);
        lemma_powmod_double(3int, 1, 17, 3);
        assert(pow(3int, 2) % 17 == 9);
        assert(coset_beta(f, 3, 2) == 9);
        lemma_pow1(9int);
        assert(pow(9int, 1) % 17 == 9);
        lemma_powmod_double(9int, 1, 17, 9);
        assert(pow(9int, 2) % 17 == 13);
        lemma_powmod_double(9int, 2, 17, 13);
        assert(pow(9int, 4) % 17 == 16);
    }
    assert(coset_label(f, p, 3, 3) == 4) by {
        lemma_pow1(3int);
        assert(pow(3int, 1) % 17 == 3);
        lemma_powmod_double(3int, 1, 17, 3);
        assert(pow(3int, 2) % 17 == 9);
        lemma_powmod_inc(3int, 2, 17, 9);
        assert(pow(3int, 3) % 17 == 10);
        assert(coset_beta(f, 3, 3) == 10);
        lemma_pow1(10int);
        assert(pow(10int, 1) % 17 == 10);
        lemma_powmod_double(10int, 1, 17, 10);
        assert(pow(10int, 2) % 17 == 15);
        lemma_powmod_double(10int, 2, 17, 15);
        assert(pow(10int, 4) % 17 == 4);
    }
    assert forall|j1: int, j2: int| 0 <= j1 < j2 < p.ell implies coset_label(f, p, 3, j1) != coset_label(f, p, 3, j2) by {
        assert(j1 == 0 || j1 == 1 || j1 == 2 || j1 == 3);
        assert(j2 == 0 || j2 == 1 || j2 == 2 || j2 == 3);
    }
}

/// The residual group the enumeration uses for `p`: group `a` when there is a residual.
pub open spec fn enumerated_residual_group(p: Parameters) -> Option<usize> {
    if p.spec_b() > 0 {
        Some(p.spec_a() as usize)
    } else {
        None
    }
}

/// Every enumerated case builds an instance: its field is prime, its parameters are
/// valid with residual group `a`, and the construction conditions of `Instance::new` hold.
#[verifier::spinoff_prover]
pub proof fn lemma_enumerated_case(p: Parameters)
    requires
        in_enumeration(p),
    ensures
        3 <= p.q <= 65537,
        spec_is_prime(p.q as int),
        params_valid(p, enumerated_residual_group(p)),
        construction_ok(field_of(p.q), p),
{
    let fam = family_of(p);
    let f = field_of(p.q);
    let g: int = if fam == 0 { 3 } else { 5 };
    assert(fam < 4 && 2 <= p.ell <= family(fam).2);
    if fam == 0 {
        lemma_family_0(p);
    } else if fam == 1 {
        lemma_family_1(p);
    } else if fam == 2 {
        lemma_family_2(p);
    } else {
        lemma_family_3(p);
    }
    assert(f.modulus() == p.q);
    assert(least_generator(f) == g);
    let a = p.spec_a();
    let b = p.spec_b();
    lemma_fundamental_div_mod(p.k as int, p.r as int);
    lemma_mod_bound(p.k as int, p.r as int);
    assert(p.k == p.r * a + b);
    assert(a >= 1) by (nonlinear_arith)
        requires
            p.k == p.r * a + b,
            b < p.r,
            p.r <= p.k,
    ;
    if b > 0 {
        assert(a < p.ell) by (nonlinear_arith)
            requires
                p.k == p.r * a + b,
                b > 0,
                p.k <= p.ell * p.r,
                p.r > 0,
        ;
    }
    assert(a <= p.ell) by (nonlinear_arith)
        requires
            p.k == p.r * a + b,
            b >= 0,
            p.k <= p.ell * p.r,
            p.r > 0,
    ;
    assert(fam < 4 && p.ell <= family(fam).2);
    assert((p.q as int - 1) % (p.m as int) == 0 && p.ell <= (p.q as int - 1) / (p.m as int)) by {
        if fam == 0 {
            assert(p.q as int - 1 == 16 && p.m as int == 4 && p.ell <= 4);
            assert(16int % 4 == 0 && 16int / 4 == 4);
        } else if fam == 1 {
            assert(p.q as int - 1 == 96 && p.m as int == 8 && p.ell <= 6);
            assert(96int % 8 == 0 && 96int / 8 == 12);
        } else if fam == 2 {
            assert(p.q as int - 1 == 96 && p.m as int == 12 && p.ell <= 8);
            assert(96int % 12 == 0 && 96int / 12 == 8);
        } else {
            assert(p.q as int - 1 == 192 && p.m as int == 16 && p.ell <= 8);
            assert(192int % 16 == 0 && 192int / 16 == 12);
        }
    }
    assert(params_valid(p, enumerated_residual_group(p)));
    lemma_point_powers(f, p, g);
    assert forall|s: int| 0 <= s < p.spec_a() implies #[trigger] lagrange_denominator(f, p, g, s, p.spec_a()) != 0 by {
        lemma_denominator_nonzero(f, p, g, s, a);
    }
}

/// The exhaustive-case parameters `(q, m, ell, r, k) = (17, 4, 4, 3, 4)`.
pub open spec fn exhaustive_parameters() -> Parameters {
    Parameters { q: 17, m: 4, ell: 4, r: 3, k: 4 }
}

/// The instance of the exhaustive case is constructible with residual group 2: 3 is the
/// least generator of `F_17`, and the coset labels are `1, 13, 16, 4`.
#[verifier::spinoff_prover]
pub proof fn lemma_exhaustive_instance()
    ensures
        spec_is_prime(17),
        params_valid(exhaustive_parameters(), Some(2usize)),
        construction_ok(field_of(17), exhaustive_parameters()),
        least_generator(field_of(17)) == 3,
        coset_label(field_of(17), exhaustive_parameters(), 3, 0) == 1,
        coset_label(field_of(17), exhaustive_parameters(), 3, 1) == 13,
        coset_label(field_of(17), exhaustive_parameters(), 3, 2) == 16,
        coset_label(field_of(17), exhaustive_parameters(), 3, 3) == 4,
{
    let p = exhaustive_parameters();
    assert(in_enumeration(p));
    lemma_enumerated_case(p);
    lemma_family_0(p);
    assert(p.k == 4 && p.r == 3);
    assert(4int / 3 == 1 && 4int % 3 == 1);
    assert(enumerated_residual_group(p) == Some(1usize));
    assert(params_valid(p, Some(2usize)));
    lemma_family_0_labels(p);
}

/// The coset labels of `F_17` with `m = 4` and generator 3.
proof fn lemma_family_0_labels(p: Parameters)
    requires
        p.q == 17,
        p.m == 4,
    ensures
        coset_label(field_of(17), p, 3, 0) == 1,
        coset_label(field_of(17), p, 3, 1) == 13,
        coset_label(field_of(17), p, 3, 2) == 16,
        coset_label(field_of(17), p, 3, 3) == 4,
{
    let f = field_of(17);
    assert(f.modulus() == 17);
    reveal_with_fuel(pow, 5);
    assert(pow(3, 0) == 1 && pow(3, 1) == 3 && pow(3, 2) == 9 && pow(3, 3) == 27);
    assert(coset_beta(f, 3, 0) == 1 && coset_beta(f, 3, 1) == 3 && coset_beta(f, 3, 2) == 9 && coset_beta(f, 3, 3) == 10);
    assert(pow(1, 4) == 1 && pow(3, 4) == 81 && pow(9, 4) == 6561 && pow(10, 4) == 10000);
}

/// The tables of the exhaustive instance: generator 3, coset labels `1, 13, 16, 4`, the
/// single source Lagrange polynomial `1` and the vanishing polynomial `X - 1`.
#[verifier::spinoff_prover]
pub proof fn lemma_exhaustive_tables(inst: Instance)
    requires
        inst.wf(),
        inst.spec_params() == exhaustive_parameters(),
        inst.spec_field() == field_of(17),
    ensures
        inst.spec_generator() == 3,
        inst.spec_gamma() == seq![1u64, 13, 16, 4],
        inst.spec_lagrange() == seq![seq![1u64]],
        inst.spec_vanishing() == seq![16u64, 1],
{
    inst.lemma_tables();
    lemma_exhaustive_instance();
    let f = field_of(17);
    let p = exhaustive_parameters();
    assert(f.modulus() == 17);
    assert(inst.spec_gamma() =~= seq![1u64, 13, 16, 4]);
    assert(lagrange_numerator(f, p, 3, 0, 1) == seq![1u64]) by {
        reveal_with_fuel(lagrange_numerator, 2);
    }
    assert(lagrange_denominator(f, p, 3, 0, 1) == 1) by {
        reveal_with_fuel(lagrange_denominator, 2);
    }
    lemma_inverse_unique(1, 1, 17);
    assert(inverse_of(1, 17) == 1);
    assert(scale(seq![1u64], 1, 17) =~= seq![1u64]);
    assert(inst.spec_lagrange()[0] == scale(lagrange_numerator(f, p, 3, 0, 1), inverse_of(lagrange_denominator(f, p, 3, 0, 1), 17), 17));
    assert(inst.spec_lagrange()[0] =~= seq![1u64]);
    assert(inst.spec_lagrange() =~= seq![seq![1u64]]);
    let lin = linear(1, 17);
    assert(lin == seq![16u64, 1]);
    assert(label_vanishing(f, p, 3, 1) == pmul(seq![1u64], lin, 17)) by {
        reveal_with_fuel(label_vanishing, 2);
    }
    assert(seq![1u64][0] == 1);
    assert(coef_at(lin, 0) == 16 && coef_at(lin, 1) == 1);
    assert(conv_coef(seq![1u64], lin, 0, 1) == 16) by {
        reveal_with_fuel(conv_coef, 2);
    }
    assert(conv_coef(seq![1u64], lin, 1, 1) == 1) by {
        reveal_with_fuel(conv_coef, 2);
    }
    assert(pmul(seq![1u64], lin, 17) =~= seq![16u64, 1]);
}

/// Whether enumeration number `n` of the exhaustive case survives the mutation: its
/// message `(n mod 17, ..., digit 3 of n)` meets `v_0 + 14 v_3 = 0` modulo 17.
pub open spec fn survives(n: int) -> bool {
    ((n % 17) + 14 * ((((n / 17) / 17) / 17) % 17)) % 17 == 0
}

/// Surviving enumeration numbers below `n`.
pub open spec fn survivors_below(n: int) -> int
    decreases n,
{
    if n <= 0 {
        0
    } else {
        survivors_below(n - 1) + if survives(n - 1) {
            1int
        } else {
            0int
        }
    }
}

/// Residues `d' < d` with `d' + 14 c = 0` modulo 17.
pub open spec fn block_hits(c: int, d: int) -> int
    decreases d,
{
    if d <= 0 {
        0
    } else {
        block_hits(c, d - 1) + if ((d - 1) + 14 * c) % 17 == 0 {
            1int
        } else {
            0int
        }
    }
}

/// Exactly one residue `d < 17` solves `d + 14 c = 0` modulo 17.
proof fn lemma_block_hits(c: int)
    requires
        0 <= c < 17,
    ensures
        block_hits(c, 17) == 1,
{
    reveal_with_fuel(block_hits, 18);
    assert(c == 0 || c == 1 || c == 2 || c == 3 || c == 4 || c == 5 || c == 6 || c == 7 || c == 8 || c == 9 || c == 10
        || c == 11 || c == 12 || c == 13 || c == 14 || c == 15 || c == 16);
}

/// Inside the block of 17 numbers starting at `17 t`, the survivors are the block's hits.
proof fn lemma_block(t: int, d: int)
    requires
        0 <= t,
        0 <= d <= 17,
    ensures
        survivors_below(17 * t + d) == survivors_below(17 * t) + block_hits((((t / 17) / 17) % 17), d),
    decreases d,
{
    if d > 0 {
        lemma_block(t, d - 1);
        let n = 17 * t + d - 1;
        lemma_fundamental_div_mod_converse(n, 17, t, d - 1);
        assert(n / 17 == t && n % 17 == d - 1);
    }
}

/// Every full block of 17 numbers holds one survivor.
proof fn lemma_survivors(t: int)
    requires
        0 <= t,
    ensures
        survivors_below(17 * t) == t,
    decreases t,
{
    if t > 0 {
        lemma_survivors(t - 1);
        lemma_block(t - 1, 17);
        lemma_mod_bound((((t - 1) / 17) / 17), 17);
        lemma_block_hits((((t - 1) / 17) / 17) % 17);
        assert(17 * (t - 1) + 17 == 17 * t);
    }
}

/// On the exhaustive instance, equation 16 reads `v_0 + 14 v_3 = 0` modulo 17.
#[verifier::spinoff_prover]
proof fn lemma_exhaustive_condition(inst: Instance, message: Seq<u64>)
    requires
        inst.wf(),
        inst.spec_params() == exhaustive_parameters(),
        inst.spec_field() == field_of(17),
        inst.spec_residual_group() == Some(2usize),
        inst.valid_message(message),
    ensures
        inst.spec_mutation_condition(message) <==> (message[0] + 14 * message[3]) % 17 == 0,
{
    inst.lemma_tables();
    lemma_exhaustive_instance();
    let f = field_of(17);
    let p = exhaustive_parameters();
    assert(f.modulus() == 17);
    assert(p.k == 4 && p.r == 3);
    assert(4int / 3 == 1 && 4int % 3 == 1);
    assert(p.spec_a() == 1 && p.spec_b() == 1);
    assert(inst.spec_generator() == 3);
    let y = inst.spec_gamma()[2] as int;
    assert(y == 16);
    let num = lagrange_numerator(f, p, 3, 0, 1);
    assert(num == seq![1u64]) by {
        reveal_with_fuel(lagrange_numerator, 2);
    }
    assert(lagrange_denominator(f, p, 3, 0, 1) == 1) by {
        reveal_with_fuel(lagrange_denominator, 2);
    }
    lemma_inverse_unique(1, 1, 17);
    let l0 = inst.spec_lagrange()[0];
    assert(l0 =~= seq![1u64]);
    assert(l0.drop_first() =~= Seq::<u64>::empty());
    assert(poly_value(Seq::<u64>::empty(), y) == 0);
    assert(poly_value(l0, y) == 1);
    assert(inst.lagrange_weight(0, y) == 1);
    let base = inst.spec_source_combination(message, y);
    assert(inst.source_sum(message, y, 0, 1) == message[0]) by {
        reveal_with_fuel(Instance::source_sum, 2);
    }
    assert(base[0] == message[0]);
    crate::encoding_laws::lemma_value_vanishing(inst, y);
    assert(crate::encoding_laws::label_product(f, p, 3, -1, 1, y) == 15) by {
        reveal_with_fuel(crate::encoding_laws::label_product, 2);
    }
    assert(inst.residual_weight(2) == 15);
    assert(inst.spec_mutation_condition(message) <==> (base[0] + 14 * message[3]) % 17 == 0) by {
        if (base[0] + 14 * message[3]) % 17 == 0 {
            assert forall|i: int| 0 <= i < 1 implies (#[trigger] base[i] + ((inst.residual_weight(2) - 1) % 17) * message[
                1 * 3 + i]) % 17 == 0 by {
                assert(i == 0);
            }
        }
    }
}

/// Encode and decode every message of the small instance with residual conversion
/// (which must round-trip) and without it (which must round-trip exactly when
/// equation 16 holds), and count the survivors of the mutation.
#[verifier::spinoff_prover]
pub fn exhaustive_mutation() -> (res: Result<ExhaustiveReport>)
    ensures
        res is Ok,
        res matches Ok(rep) ==> {
            &&& rep.passed
            &&& rep.parameters == (Parameters { q: 17, m: 4, ell: 4, r: 3, k: 4 })
            &&& rep.source_gamma == 1
            &&& rep.residual_gamma == 16
            &&& rep.messages_checked == 83521
            &&& rep.correct_round_trips == 83521
            &&& rep.mutation_survivors == 4913
            &&& rep.equation16_satisfied == rep.mutation_survivors
            &&& rep.predicted_survivors == 4913
        },
{
    let parameters = Parameters { q: 17, m: 4, ell: 4, r: 3, k: 4 };
    proof {
        lemma_exhaustive_instance();
        assert(parameters == exhaustive_parameters());
        lemma_degree_facts(parameters, Some(2));
    }
    let instance = Instance::new(parameters, Some(2))?;
    proof {
        instance.lemma_tables();
        assert(instance.spec_generator() == 3);
    }
    ensure(instance.gamma[0] == 1 && instance.gamma[2] == 16, "unexpected exhaustive-case coset labels")?;
    let total: u64 = 83521;
    let mut survived: u64 = 0;
    let mut equation16: u64 = 0;
    let mut number: u64 = 0;
    while number < total
        invariant
            instance.wf(),
            instance.spec_params() == parameters,
            parameters == exhaustive_parameters(),
            instance.spec_field() == field_of(17),
            instance.spec_residual_group() == Some(2usize),
            parameters.k == 4,
            instance.spec_field().modulus() == 17,
            number <= total,
            total == 83521,
            survived == survivors_below(number as int),
            survived <= number,
            survived == equation16,
        decreases total - number,
    {
        let mut rest = number;
        let mut message: Vec<u64> = Vec::new();
        while message.len() < 4
            invariant
                message.len() <= 4,
                all_below(message@, 17),
                message.len() == 0 ==> rest == number,
                message.len() >= 1 ==> message@[0] == number % 17,
                message.len() == 1 ==> rest == number / 17,
                message.len() == 2 ==> rest == (number / 17) / 17,
                message.len() == 3 ==> rest == ((number / 17) / 17) / 17,
                message.len() == 4 ==> message@[3] == (((number / 17) / 17) / 17) % 17,
            decreases 4 - message.len(),
        {
            message.push(rest % 17);
            rest = rest / 17;
        }
        assert(instance.valid_message(message@));
        let correct = instance.encode(message.as_slice(), true)?;
        let back = instance.decode(correct.as_slice());
        ensure(same_u64(back.as_slice(), message.as_slice()), "exhaustive correct round trip failed")?;
        let mutated = instance.encode(message.as_slice(), false)?;
        let mutated_back = instance.decode(mutated.as_slice());
        let round_trip = same_u64(mutated_back.as_slice(), message.as_slice());
        let eq16 = instance.mutation_condition(message.as_slice());
        proof {
            crate::encoding_laws::lemma_mutation_condition(instance, message@);
            lemma_exhaustive_condition(instance, message@);
            assert(round_trip == survives(number as int));
        }
        ensure(round_trip == eq16, "exhaustive mutation condition failed")?;
        if round_trip {
            survived = survived + 1;
        }
        if eq16 {
            equation16 = equation16 + 1;
        }
        number = number + 1;
    }
    let predicted: u64 = 4913;
    proof {
        lemma_survivors(4913);
    }
    ensure(survived == predicted, "exhaustive survival count differs from q^(k-b)")?;
    Ok(ExhaustiveReport {
        parameters,
        source_gamma: instance.gamma[0],
        residual_gamma: instance.gamma[2],
        messages_checked: total,
        correct_round_trips: total,
        mutation_survivors: survived,
        equation16_satisfied: equation16,
        predicted_survivors: predicted,
        passed: true,
    })
}

/// The enumerated families `(q, m, ell_max)`.
pub open spec fn family(f: int) -> (u64, usize, usize) {
    if f == 0 {
        (17, 4, 4)
    } else if f == 1 {
        (97, 8, 6)
    } else if f == 2 {
        (97, 12, 8)
    } else {
        (193, 16, 8)
    }
}

/// The family index of `(q, m)`, or 4 when `(q, m)` is not enumerated.
pub open spec fn family_of(p: Parameters) -> int {
    if p.q == 17 && p.m == 4 {
        0
    } else if p.q == 97 && p.m == 8 {
        1
    } else if p.q == 97 && p.m == 12 {
        2
    } else if p.q == 193 && p.m == 16 {
        3
    } else {
        4
    }
}

/// `p` is one of the enumerated cases: an enumerated `(q, m)` family,
/// `2 <= ell <= ell_max`, `2 <= r < m` and `r <= k <= ell r`.
pub open spec fn in_enumeration(p: Parameters) -> bool {
    let f = family_of(p);
    &&& f < 4
    &&& 2 <= p.ell <= family(f).2
    &&& 2 <= p.r < p.m
    &&& p.r <= p.k <= p.ell * p.r
}

/// `p` comes before the cursor `(f, ell, r, k)` in lexicographic order.
pub open spec fn before(p: Parameters, f: int, ell: int, r: int, k: int) -> bool {
    family_of(p) < f || (family_of(p) == f && (p.ell < ell || (p.ell == ell && (p.r < r || (p.r
        == r && p.k < k)))))
}

/// Lexicographic order on `(family, ell, r, k)`.
pub open spec fn enumeration_lt(x: Parameters, y: Parameters) -> bool {
    before(x, family_of(y), y.ell as int, y.r as int, y.k as int)
}

/// Every enumerated case, in lexicographic order of `(family, ell, r, k)`.
pub fn enumerate() -> (cases: Vec<Parameters>)
    ensures
        forall|i: int| 0 <= i < cases.len() ==> #[trigger] in_enumeration(cases@[i]),
        forall|i: int, j: int| 0 <= i < j < cases.len() ==> enumeration_lt(cases@[i], cases@[j]),
        forall|p: Parameters| #[trigger] in_enumeration(p) ==> cases@.contains(p),
{
    let qs: [u64; 4] = [17, 97, 97, 193];
    let ms: [usize; 4] = [4, 8, 12, 16];
    let maxs: [usize; 4] = [4, 6, 8, 8];
    let mut cases: Vec<Parameters> = Vec::new();
    let mut f: usize = 0;
    while f < 4
        invariant
            qs@ == seq![17u64, 97, 97, 193],
            ms@ == seq![4usize, 8, 12, 16],
            maxs@ == seq![4usize, 6, 8, 8],
            f <= 4,
            forall|i: int| 0 <= i < cases.len() ==> #[trigger] in_enumeration(cases@[i]),
            forall|i: int| 0 <= i < cases.len() ==> #[trigger] before(cases@[i], f as int, 0, 0, 0),
            forall|i: int, j: int| 0 <= i < j < cases.len() ==> enumeration_lt(cases@[i], cases@[j]),
            forall|p: Parameters| #[trigger] in_enumeration(p) && before(p, f as int, 0, 0, 0) ==> cases@.contains(p),
        decreases 4 - f,
    {
        let q = qs[f];
        let m = ms[f];
        let ell_max = maxs[f];
        assert(family(f as int) == (q, m, ell_max));
        let mut ell: usize = 2;
        assert forall|i: int| 0 <= i < cases.len() implies #[trigger] before(cases@[i], f as int, ell as int, 0, 0) by {
            assert(before(cases@[i], f as int, 0, 0, 0));
        }
        while ell <= ell_max
            invariant
                f < 4,
                family(f as int) == (q, m, ell_max),
                ell_max <= 8,
                m <= 16,
                2 <= ell <= ell_max + 1,
                forall|i: int| 0 <= i < cases.len() ==> #[trigger] in_enumeration(cases@[i]),
                forall|i: int| 0 <= i < cases.len() ==> #[trigger] before(cases@[i], f as int, ell as int, 0, 0),
                forall|i: int, j: int| 0 <= i < j < cases.len() ==> enumeration_lt(cases@[i], cases@[j]),
                forall|p: Parameters| #[trigger] in_enumeration(p) && before(p, f as int, ell as int, 0, 0) ==> cases@.contains(p),
            decreases ell_max + 1 - ell,
        {
            let mut r: usize = 2;
            assert forall|i: int| 0 <= i < cases.len() implies #[trigger] before(cases@[i], f as int, ell as int, r as int, 0) by {
                assert(before(cases@[i], f as int, ell as int, 0, 0));
            }
            assert forall|p: Parameters| #[trigger] in_enumeration(p) && before(p, f as int, ell as int, r as int, 0) implies cases@.contains(p) by {
                assert(before(p, f as int, ell as int, 0, 0));
            }
            while r < m
                invariant
                    f < 4,
                    family(f as int) == (q, m, ell_max),
                    ell_max <= 8,
                    m <= 16,
                    2 <= ell <= ell_max,
                    2 <= r <= m,
                    forall|i: int| 0 <= i < cases.len() ==> #[trigger] in_enumeration(cases@[i]),
                    forall|i: int| 0 <= i < cases.len() ==> #[trigger] before(cases@[i], f as int, ell as int, r as int, 0),
                    forall|i: int, j: int| 0 <= i < j < cases.len() ==> enumeration_lt(cases@[i], cases@[j]),
                    forall|p: Parameters| #[trigger] in_enumeration(p) && before(p, f as int, ell as int, r as int, 0) ==> cases@.contains(p),
                decreases m - r,
            {
                assert(ell * r <= 128 && r <= ell * r) by (nonlinear_arith)
                    requires
                        2 <= ell <= 8,
                        2 <= r < 16,
                ;
                let top = ell * r;
                let mut k: usize = r;
                assert forall|i: int| 0 <= i < cases.len() implies #[trigger] before(cases@[i], f as int, ell as int, r as int, k as int) by {
                    assert(before(cases@[i], f as int, ell as int, r as int, 0));
                }
                assert forall|p: Parameters| #[trigger] in_enumeration(p) && before(p, f as int, ell as int, r as int, k as int) implies cases@.contains(p) by {
                    assert(before(p, f as int, ell as int, r as int, 0));
                }
                while k <= top
                    invariant
                        f < 4,
                        family(f as int) == (q, m, ell_max),
                        2 <= ell <= ell_max,
                        2 <= r < m,
                        top == ell * r,
                        top <= 128,
                        r <= k <= top + 1,
                        forall|i: int| 0 <= i < cases.len() ==> #[trigger] in_enumeration(cases@[i]),
                        forall|i: int| 0 <= i < cases.len() ==> #[trigger] before(cases@[i], f as int, ell as int, r as int, k as int),
                        forall|i: int, j: int| 0 <= i < j < cases.len() ==> enumeration_lt(cases@[i], cases@[j]),
                        forall|p: Parameters| #[trigger] in_enumeration(p) && before(p, f as int, ell as int, r as int, k as int) ==> cases@.contains(p),
                    decreases top + 1 - k,
                {
                    let c = Parameters { q, m, ell, r, k };
                    assert(family_of(c) == f);
                    let ghost old = cases@;
                    cases.push(c);
                    proof {
                        assert forall|p: Parameters| #[trigger] in_enumeration(p) && before(p, f as int, ell as int, r as int, k + 1) implies cases@.contains(p) by {
                            if before(p, f as int, ell as int, r as int, k as int) {
                                assert(old.contains(p));
                                let t = choose|t: int| 0 <= t < old.len() && old[t] == p;
                                assert(cases@[t] == p);
                            } else {
                                assert(p == c);
                                assert(cases@[cases.len() - 1] == c);
                            }
                        }
                        assert forall|i: int, j: int| 0 <= i < j < cases.len() implies enumeration_lt(cases@[i], cases@[j]) by {
                            if j == cases.len() - 1 {
                                assert(before(old[i], f as int, ell as int, r as int, k as int));
                            } else {
                                assert(cases@[i] == old[i] && cases@[j] == old[j]);
                            }
                        }
                        assert forall|i: int| 0 <= i < cases.len() implies #[trigger] before(cases@[i], f as int, ell as int, r as int, k + 1) by {
                            if i < cases.len() - 1 {
                                assert(cases@[i] == old[i]);
                                assert(before(old[i], f as int, ell as int, r as int, k as int));
                            }
                        }
                        assert forall|i: int| 0 <= i < cases.len() implies #[trigger] in_enumeration(cases@[i]) by {
                            if i < cases.len() - 1 {
                                assert(cases@[i] == old[i]);
                            }
                        }
                    }
                    k = k + 1;
                }
                proof {
                    assert forall|p: Parameters| #[trigger] in_enumeration(p) && before(p, f as int, ell as int, r + 1, 0) implies cases@.contains(p) by {
                        assert(before(p, f as int, ell as int, r as int, k as int));
                    }
                    assert forall|i: int| 0 <= i < cases.len() implies #[trigger] before(cases@[i], f as int, ell as int, r + 1, 0) by {
                        assert(before(cases@[i], f as int, ell as int, r as int, k as int));
                    }
                }
                r = r + 1;
            }
            proof {
                assert forall|p: Parameters| #[trigger] in_enumeration(p) && before(p, f as int, ell + 1, 0, 0) implies cases@.contains(p) by {
                    assert(before(p, f as int, ell as int, r as int, 0));
                }
                assert forall|i: int| 0 <= i < cases.len() implies #[trigger] before(cases@[i], f as int, ell + 1, 0, 0) by {
                    assert(before(cases@[i], f as int, ell as int, r as int, 0));
                }
            }
            ell = ell + 1;
        }
        proof {
            assert forall|p: Parameters| #[trigger] in_enumeration(p) && before(p, f + 1, 0, 0, 0) implies cases@.contains(p) by {
                if family_of(p) == f {
                    assert(before(p, f as int, ell as int, 0, 0));
                }
            }
            assert forall|i: int| 0 <= i < cases.len() implies #[trigger] before(cases@[i], f + 1, 0, 0, 0) by {
                assert(before(cases@[i], f as int, ell as int, 0, 0));
            }
        }
        f = f + 1;
    }
    proof {
        assert forall|p: Parameters| #[trigger] in_enumeration(p) implies cases@.contains(p) by {
            assert(before(p, 4, 0, 0, 0));
        }
    }
    cases
}

/// `Ok(())` when `condition` holds; otherwise an error with `message`.
pub fn ensure(condition: bool, message: &str) -> (res: Result<()>)
    ensures
        res is Ok <==> condition,
        res matches Err(e) ==> e.0@ == message@,
{
    require(condition, message)
}

} // verus!
