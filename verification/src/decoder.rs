//! Structured erasure decoding: every local polynomial is its interpolant on the
//! received positions plus an unknown multiple of the group's erasure cofactor, and the
//! outer parity relations fix the unknowns through a linear system.
use crate::domain::{
    fr_fft, fr_root_of_unity, is_pow2, is_power_of_two, lemma_mul_diff_mod, lemma_pow_step_mod,
    lemma_psum_scaled, prod_skip, root_of_unity, scaled,
};
use crate::domain::{Params, ParamsView};
use crate::error::{Error, Result};
use crate::collector::shuffle;
use crate::fixture::{draw_scalar, rng, stream};
use crate::protocol::{push_bytes, push_decimal};
use crate::recovery::{diagonal_applies, diagonal_erased, erased};
use rand_chacha::ChaCha20Rng;
use crate::field::{copy_elements, inv_of, lemma_inv_of, modulus, Fe};
use crate::polynomial::{
    cong, distinct, divide_exact, evaluate, fes, fr_batch_inversion, lemma_cong_lin, lemma_psum_cong,
    lemma_sub_mul_mod,
    lemma_psum_vanish, lemma_vanish_monic, lin, multiply_linear, occurs_before, peval, prod, psum,
    vanish,
};
use vstd::arithmetic::div_mod::*;
use vstd::arithmetic::power::*;
use vstd::prelude::*;

verus! {

/// Dimensions of a decoding instance: `ell` groups of `m` positions, local polynomials
/// of `r` coefficients, and `a` source groups that the outer relations start from.
#[derive(Clone, Copy, Debug, PartialEq, Eq, Structural)]
pub struct Shape {
    pub m: usize,
    pub r: usize,
    pub ell: usize,
    pub a: usize,
}

/// The shift `g^j` of group `j`.
pub open spec fn coset_shift(g: int, j: int) -> int {
    pow(g, j as nat) % modulus()
}

/// The outer label `(g^j)^m` of group `j`.
pub open spec fn outer_label(g: int, m: nat, j: int) -> int {
    pow(coset_shift(g, j), m) % modulus()
}

/// The outer labels of the first `n` groups.
pub open spec fn outer_labels(g: int, m: nat, n: nat) -> Seq<int> {
    Seq::new(n, |j: int| outer_label(g, m, j))
}

/// The inverse of `x` where it exists, zero for zero.
pub open spec fn inverse_or_zero(x: int) -> int {
    if x % modulus() == 0 {
        0
    } else {
        inv_of(x)
    }
}

/// Entry `s` of the parity relation that ties group `j` to the sources: minus the
/// Lagrange basis polynomial of source `s` at the label of group `j`.
pub open spec fn relation_entry(labels: Seq<int>, a: int, j: int, s: int) -> int {
    let v = (inverse_or_zero(prod_skip(labels, labels[s], s, a) % modulus()) * prod_skip(
        labels,
        labels[j],
        s,
        a,
    )) % modulus();
    (modulus() - v) % modulus()
}

/// The full relation of parity group `j` over all `ell` groups.
pub open spec fn relation_row(labels: Seq<int>, a: int, ell: int, j: int) -> Seq<int> {
    Seq::new(
        ell as nat,
        |t: int|
            if t < a {
                relation_entry(labels, a, j, t)
            } else if t == j {
                1int
            } else {
                0int
            },
    )
}

/// The evaluation point of position `i` of a group shifted by `beta`, on the size-`m`
/// subgroup.
pub open spec fn coset_point(beta: int, m: nat, i: int) -> int {
    (beta * (pow(root_of_unity(m), i as nat) % modulus())) % modulus()
}

/// A decoding layout: group shifts, outer labels and the parity relations.
pub struct Layout {
    shape: Shape,
    omega: Fe,
    betas: Vec<Fe>,
    gammas: Vec<Fe>,
    relations: Vec<Vec<Fe>>,
}

impl Layout {
    /// Dimensions.
    pub closed spec fn shape_of(self) -> Shape {
        self.shape
    }

    /// The shift of group `j`.
    pub closed spec fn beta(self, j: int) -> int {
        self.betas@[j]@
    }

    /// The outer labels.
    pub closed spec fn labels(self) -> Seq<int> {
        fes(self.gammas@)
    }

    /// The parity relations, one per group from `a` on.
    pub closed spec fn relation_table(self) -> Seq<Seq<int>> {
        Seq::new(self.relations@.len(), |k: int| fes(self.relations@[k]@))
    }

    /// The evaluation point of position `i` of group `j`.
    pub open spec fn point(self, j: int, i: int) -> int {
        coset_point(self.beta(j), self.shape_of().m as nat, i)
    }

    #[verifier::type_invariant]
    closed spec fn wf(self) -> bool {
        &&& self.shape.a <= self.shape.ell
        &&& self.shape.r <= self.shape.m
        &&& is_pow2(self.shape.m as nat)
        &&& self.shape.m <= 0x1_0000_0000
        &&& self.omega@ == root_of_unity(self.shape.m as nat)
        &&& self.betas.len() == self.shape.ell
        &&& self.gammas.len() == self.shape.ell
        &&& self.relations.len() == self.shape.ell - self.shape.a
        &&& forall|k: int| 0 <= k < self.relations.len() ==> (#[trigger] self.relations@[k]).len()
            == self.shape.ell
    }

    /// Dimensions, which respect `a <= ell` and `r <= m` over a power-of-two `m`.
    pub fn shape(&self) -> (s: Shape)
        ensures
            s == self.shape_of(),
            s.a <= s.ell,
            s.r <= s.m,
            is_pow2(s.m as nat),
            s.m <= 0x1_0000_0000,
            self.labels().len() == s.ell,
            self.relation_table().len() == s.ell - s.a,
            forall|k: int|
                0 <= k < self.relation_table().len() ==> (#[trigger] self.relation_table()[k]).len()
                    == s.ell,
    {
        proof {
            use_type_invariant(self);
        }
        self.shape
    }

    /// Build the layout of coset generator `generator`; a product layout shares the
    /// subgroup itself among all groups.
    pub fn new(shape: Shape, generator: Fe, product: bool) -> (res: Result<Layout>)
        requires
            shape.a <= shape.ell,
            shape.r <= shape.m,
        ensures
            res is Ok <==> is_pow2(shape.m as nat) && shape.m <= 0x1_0000_0000 && distinct(
                outer_labels(generator@, shape.m as nat, shape.ell as nat),
            ),
            !(is_pow2(shape.m as nat) && shape.m <= 0x1_0000_0000) ==> (res matches Err(e) && e.0@
                == "FFT domain unavailable"@),
            res matches Err(e) ==> (e.0@ == "FFT domain unavailable"@ || e.0@
                == "outer evaluation points are not distinct"@),
            res matches Ok(l) ==> {
                &&& l.shape_of() == shape
                &&& l.labels() == outer_labels(generator@, shape.m as nat, shape.ell as nat)
                &&& forall|j: int|
                    0 <= j < shape.ell ==> #[trigger] l.beta(j) == if product {
                        1
                    } else {
                        coset_shift(generator@, j)
                    }
                &&& l.relation_table().len() == shape.ell - shape.a
                &&& forall|k: int|
                    0 <= k < shape.ell - shape.a ==> #[trigger] l.relation_table()[k]
                        == relation_row(l.labels(), shape.a as int, shape.ell as int, shape.a + k)
            },
    {
        let m = shape.m;
        let ell = shape.ell;
        let a = shape.a;
        if !(is_power_of_two(m) && (m as u64) <= 0x1_0000_0000u64) {
            return Err(Error("FFT domain unavailable".to_owned()));
        }
        let omega = match fr_root_of_unity(m as u64) {
            Some(w) => w,
            None => {
                return Err(Error("FFT domain unavailable".to_owned()));
            },
        };
        let ghost g = generator@;
        let mut cosets: Vec<Fe> = Vec::new();
        let mut gammas: Vec<Fe> = Vec::new();
        let mut beta = Fe::one();
        proof {
            lemma_pow0(g);
            lemma_small_mod(1, modulus() as nat);
        }
        let mut j: usize = 0;
        while j < ell
            invariant
                g == generator@,
                j <= ell,
                m == shape.m,
                ell == shape.ell,
                is_pow2(m as nat),
                m <= 0x1_0000_0000,
                cosets.len() == j,
                gammas.len() == j,
                beta@ == coset_shift(g, j as int),
                forall|i: int| 0 <= i < j ==> #[trigger] cosets@[i]@ == coset_shift(g, i),
                fes(gammas@) == outer_labels(g, m as nat, ell as nat).take(j as int),
                distinct(outer_labels(g, m as nat, ell as nat).take(j as int)),
            decreases ell - j,
        {
            cosets.push(beta);
            let gamma = beta.pow(m as u64);
            let ghost labels = outer_labels(g, m as nat, ell as nat);
            assert(gamma@ == labels[j as int]);
            if occurs_before(&gammas, gammas.len(), gamma) {
                proof {
                    let u = choose|u: int| 0 <= u < j && gammas@[u]@ == gamma@;
                    assert(fes(gammas@)[u] == labels[u]);
                    assert(!distinct(labels));
                }
                return Err(Error("outer evaluation points are not distinct".to_owned()));
            }
            let ghost old_g = fes(gammas@);
            gammas.push(gamma);
            proof {
                assert(fes(gammas@) == old_g.push(gamma@));
                assert(labels.take(j + 1) == labels.take(j as int).push(gamma@));
                let t = labels.take(j + 1);
                assert forall|x: int, y: int| 0 <= x < y < j + 1 implies #[trigger] t[x]
                    != #[trigger] t[y] by {
                    if y == j {
                        assert(t[x] == fes(gammas@)[x]);
                        assert(gammas@[x]@ != gamma@);
                    } else {
                        assert(labels.take(j as int)[x] != labels.take(j as int)[y]);
                    }
                }
                lemma_pow_step_mod(g, j as nat);
                Fe::lemma_range(generator);
                lemma_small_mod(g as nat, modulus() as nat);
            }
            beta = beta.mul(generator);
            j = j + 1;
        }
        let ghost labels = outer_labels(g, m as nat, ell as nat);
        assert(labels.take(ell as int) == labels);
        assert(fes(gammas@) == labels);
        let mut dens: Vec<Fe> = Vec::new();
        let mut s: usize = 0;
        while s < a
            invariant
                fes(gammas@) == labels,
                gammas.len() == ell,
                a <= ell,
                s <= a,
                dens.len() == s,
                forall|t: int|
                    0 <= t < s ==> #[trigger] dens@[t]@ == prod_skip(labels, labels[t], t, a as int)
                        % modulus(),
            decreases a - s,
        {
            let x = gammas[s];
            let d = skip_product_at(&gammas, a, s, x);
            dens.push(d);
            s = s + 1;
        }
        let ghost before = dens@;
        fr_batch_inversion(&mut dens);
        proof {
            assert forall|t: int| 0 <= t < a implies #[trigger] dens@[t]@ == inverse_or_zero(
                prod_skip(labels, labels[t], t, a as int) % modulus(),
            ) by {
                let d = prod_skip(labels, labels[t], t, a as int) % modulus();
                assert(before[t]@ == d);
                lemma_mod_twice(prod_skip(labels, labels[t], t, a as int), modulus());
                Fe::lemma_range(dens@[t]);
                if d != 0 {
                    lemma_inv_of(d, dens@[t]@);
                }
            }
        }
        let mut relations: Vec<Vec<Fe>> = Vec::new();
        let mut k: usize = a;
        while k < ell
            invariant
                fes(gammas@) == labels,
                gammas.len() == ell,
                a <= k <= ell,
                dens.len() == a,
                forall|t: int|
                    0 <= t < a ==> #[trigger] dens@[t]@ == inverse_or_zero(
                        prod_skip(labels, labels[t], t, a as int) % modulus(),
                    ),
                relations.len() == k - a,
                forall|q: int|
                    0 <= q < k - a ==> fes(#[trigger] relations@[q]@) == relation_row(
                        labels,
                        a as int,
                        ell as int,
                        a + q,
                    ),
            decreases ell - k,
        {
            let row = relation_of(&gammas, &dens, a, k);
            relations.push(row);
            k = k + 1;
        }
        let betas = if product {
            vec![Fe::one(); ell]
        } else {
            cosets
        };
        let l = Layout { shape, omega, betas, gammas, relations };
        proof {
            assert forall|q: int| 0 <= q < ell - a implies #[trigger] l.relation_table()[q]
                == relation_row(labels, a as int, ell as int, a + q) by {
                assert(l.relation_table()[q] == fes(relations@[q]@));
            }
            assert forall|i: int| 0 <= i < ell implies #[trigger] l.beta(i) == if product {
                1
            } else {
                coset_shift(g, i)
            } by {
                if product {
                    assert(l.betas@[i]@ == 1);
                }
            }
        }
        Ok(l)
    }
}

impl Layout {
    /// The shift of group `j`.
    pub fn beta_at(&self, j: usize) -> (b: Fe)
        requires
            j < self.shape_of().ell,
        ensures
            b@ == self.beta(j as int),
    {
        proof {
            use_type_invariant(self);
        }
        self.betas[j]
    }

    /// The evaluation point of position `i` of group `j`.
    pub fn point_at(&self, j: usize, i: usize) -> (x: Fe)
        requires
            j < self.shape_of().ell,
        ensures
            x@ == self.point(j as int, i as int),
    {
        proof {
            use_type_invariant(self);
        }
        let e = self.omega.pow(i as u64);
        self.betas[j].mul(e)
    }

    /// The values of a local polynomial of group `j` at its `m` points, by one FFT over
    /// the subgroup after scaling coefficient `k` by `beta_j^k`.
    pub fn evaluate(&self, j: usize, coefficients: &[Fe]) -> (values: Vec<Fe>)
        requires
            j < self.shape_of().ell,
            coefficients.len() <= self.shape_of().m,
        ensures
            values.len() == self.shape_of().m,
            forall|i: int|
                0 <= i < self.shape_of().m ==> #[trigger] values@[i]@ == peval(
                    fes(coefficients@),
                    self.point(j as int, i),
                ),
    {
        proof {
            use_type_invariant(self);
        }
        let beta = self.betas[j];
        let ghost b = beta@;
        let mut scaled_c: Vec<Fe> = Vec::new();
        let mut power = Fe::one();
        proof {
            lemma_pow0(b);
            lemma_small_mod(1, modulus() as nat);
        }
        let mut k: usize = 0;
        while k < coefficients.len()
            invariant
                b == beta@,
                k <= coefficients.len(),
                scaled_c.len() == k,
                power@ == pow(b, k as nat) % modulus(),
                forall|t: int|
                    0 <= t < k ==> #[trigger] scaled_c@[t]@ == (coefficients@[t]@ * (pow(b, t as nat)
                        % modulus())) % modulus(),
            decreases coefficients.len() - k,
        {
            scaled_c.push(coefficients[k].mul(power));
            proof {
                lemma_pow_step_mod(b, k as nat);
                Fe::lemma_range(beta);
                lemma_small_mod(b as nat, modulus() as nat);
            }
            power = power.mul(beta);
            k = k + 1;
        }
        let values = fr_fft(self.shape.m, &scaled_c);
        proof {
            let c = fes(coefficients@);
            let mm = self.shape.m as nat;
            assert(cong(fes(scaled_c@), scaled(c, b))) by {
                assert forall|t: int| 0 <= t < c.len() implies #[trigger] (fes(scaled_c@)[t]
                    % modulus()) == scaled(c, b)[t] % modulus() by {
                    lemma_mod_twice(coefficients@[t]@ * (pow(b, t as nat) % modulus()), modulus());
                    lemma_mul_mod_noop_right(c[t], pow(b, t as nat), modulus());
                }
            }
            assert forall|i: int| 0 <= i < mm implies #[trigger] values@[i]@ == peval(
                c,
                self.point(j as int, i),
            ) by {
                let e = pow(root_of_unity(mm), i as nat) % modulus();
                lemma_psum_cong(fes(scaled_c@), scaled(c, b), e, e);
                lemma_psum_scaled(c, b, e);
                lemma_mod_twice(b * e, modulus());
                lemma_psum_cong(c, c, b * e, (b * e) % modulus());
                assert(self.point(j as int, i) == (b * e) % modulus());
            }
        }
        values
    }
}

/// Division by a monic polynomial that must leave no remainder; a numerator shorter
/// than the divisor divides to the zero polynomial `[0]` when it is zero.
pub fn divide_monic(numerator: &[Fe], denominator: &[Fe]) -> (res: Result<Vec<Fe>>)
    ensures
        !(denominator.len() > 0 && denominator@[denominator.len() - 1]@ == 1) ==> (res matches Err(
            e,
        ) && e.0@ == "division requires a monic polynomial"@),
        denominator.len() > 0 && denominator@[denominator.len() - 1]@ == 1 ==> (res matches Err(e)
            ==> e.0@ == "polynomial division has a nonzero remainder"@),
        res matches Err(e) ==> (e.0@ == "division requires a monic polynomial"@ || e.0@
            == "polynomial division has a nonzero remainder"@),
        denominator.len() > 0 && denominator@[denominator.len() - 1]@ == 1 && numerator.len()
            < denominator.len() ==> (res is Ok <==> forall|t: int|
            0 <= t < numerator.len() ==> #[trigger] numerator@[t]@ == 0),
        res matches Ok(q) ==> {
            &&& q.len() == if numerator.len() < denominator.len() {
                1
            } else {
                numerator.len() - denominator.len() + 1
            }
            &&& forall|y: int| #[trigger]
                peval(fes(numerator@), y) == (psum(fes(q@), y) * psum(fes(denominator@), y))
                    % modulus()
        },
{
    if !(denominator.len() > 0 && denominator[denominator.len() - 1].is_one()) {
        return Err(Error("division requires a monic polynomial".to_owned()));
    }
    match divide_exact(numerator, denominator) {
        Ok(q) => {
            if q.len() == 0 {
                let z = vec![Fe::zero()];
                proof {
                    assert forall|y: int| #[trigger]
                        peval(fes(numerator@), y) == (psum(fes(z@), y) * psum(fes(denominator@), y))
                            % modulus() by {
                        assert(psum(fes(q@), y) == 0);
                        assert(fes(z@).drop_first().len() == 0);
                        assert(psum(fes(z@).drop_first(), y) == 0);
                        assert(psum(fes(z@), y) == 0);
                    }
                }
                Ok(z)
            } else {
                Ok(q)
            }
        },
        Err(_) => Err(Error("polynomial division has a nonzero remainder".to_owned())),
    }
}

/// Received positions are below `m` and pairwise different.
pub open spec fn positions_ok(received: Seq<(usize, Fe)>, m: int) -> bool {
    &&& forall|t: int| 0 <= t < received.len() ==> (#[trigger] received[t]).0 < m
    &&& forall|t: int, u: int|
        0 <= t < u < received.len() ==> (#[trigger] received[t]).0 != (#[trigger] received[u]).0
}

/// Whether `named` names position `i`.
pub open spec fn names(named: Seq<(usize, Fe)>, i: int) -> bool {
    exists|t: int| 0 <= t < named.len() && (#[trigger] named[t]).0 == i
}

/// How many entries are `false`.
pub open spec fn count_false(s: Seq<bool>) -> nat
    decreases s.len(),
{
    if s.len() == 0 {
        0
    } else {
        count_false(s.drop_last()) + if s.last() {
            0nat
        } else {
            1nat
        }
    }
}

/// Setting a `false` entry to `true` removes one `false`.
proof fn lemma_count_false_set(s: Seq<bool>, i: int)
    requires
        0 <= i < s.len(),
        !s[i],
    ensures
        count_false(s.update(i, true)) + 1 == count_false(s),
    decreases s.len(),
{
    if i < s.len() - 1 {
        lemma_count_false_set(s.drop_last(), i);
        assert(s.update(i, true).drop_last() == s.drop_last().update(i, true));
    } else {
        assert(s.update(i, true).drop_last() == s.drop_last());
    }
}

/// A sequence of `false` has that many.
proof fn lemma_count_false_all(n: nat)
    ensures
        count_false(Seq::new(n, |i: int| false)) == n,
    decreases n,
{
    if n > 0 {
        lemma_count_false_all((n - 1) as nat);
        assert(Seq::new(n, |i: int| false).drop_last() == Seq::new((n - 1) as nat, |i: int| false));
    }
}

/// The points of the positions below `n` of group `j` that `named` does not name, in
/// increasing order.
pub open spec fn unnamed_points(l: Layout, j: int, named: Seq<(usize, Fe)>, n: int) -> Seq<int>
    decreases n,
{
    if n <= 0 {
        Seq::empty()
    } else {
        let rest = unnamed_points(l, j, named, n - 1);
        if names(named, n - 1) {
            rest
        } else {
            rest.push(l.point(j, n - 1))
        }
    }
}

/// Mark the positions named by the first `upto` received pairs, or `None` where one
/// of them is out of range or repeats an earlier one.
fn mark_positions(m: usize, received: &[(usize, Fe)], upto: usize) -> (res: Option<Vec<bool>>)
    requires
        upto <= received.len(),
    ensures
        res is Some <==> positions_ok(received@.take(upto as int), m as int),
        res matches Some(seen) ==> {
            &&& seen.len() == m
            &&& forall|i: int| 0 <= i < m ==> #[trigger] seen@[i] == names(received@.take(upto as int), i)
            &&& count_false(seen@) + upto == m
        },
{
    let mut seen: Vec<bool> = vec![false; m];
    proof {
        lemma_count_false_all(m as nat);
        assert(seen@ == Seq::new(m as nat, |i: int| false));
    }
    let mut t: usize = 0;
    while t < upto
        invariant
            upto <= received.len(),
            t <= upto,
            seen.len() == m,
            forall|i: int| 0 <= i < m ==> #[trigger] seen@[i] == names(received@.take(t as int), i),
            positions_ok(received@.take(t as int), m as int),
            count_false(seen@) + t == m,
        decreases upto - t,
    {
        let index = received[t].0;
        let ghost now = received@.take(t as int);
        let ghost next = received@.take(t + 1);
        let ghost all = received@.take(upto as int);
        assert(next[t as int] == received@[t as int]);
        assert(all[t as int] == received@[t as int]);
        if index >= m {
            assert(!positions_ok(all, m as int));
            return None;
        }
        if seen[index] {
            proof {
                let u = choose|u: int| 0 <= u < now.len() && (#[trigger] now[u]).0 == index;
                assert(all[u] == now[u]);
                assert(!positions_ok(all, m as int));
            }
            return None;
        }
        proof {
            lemma_count_false_set(seen@, index as int);
        }
        seen.set(index, true);
        proof {
            assert forall|i: int| 0 <= i < m implies #[trigger] seen@[i] == names(next, i) by {
                if names(now, i) {
                    let u = choose|u: int| 0 <= u < now.len() && (#[trigger] now[u]).0 == i;
                    assert(next[u] == now[u]);
                }
                if names(next, i) {
                    let u = choose|u: int| 0 <= u < next.len() && (#[trigger] next[u]).0 == i;
                    if u < t {
                        assert(now[u] == next[u]);
                    }
                }
                if i == index {
                    assert(next[t as int].0 == i);
                }
            }
            assert forall|x: int, y: int| 0 <= x < y < next.len() implies (#[trigger] next[x]).0
                != (#[trigger] next[y]).0 by {
                if y < t {
                    assert(now[x] == next[x]);
                    assert(now[y] == next[y]);
                } else {
                    assert(now[x] == next[x]);
                    assert(names(now, now[x].0 as int));
                }
            }
        }
        t = t + 1;
    }
    Some(seen)
}

/// The polynomial `c + X^n` written as `[c, 0, ..., 0, 1]`.
proof fn lemma_psum_monomial(s: Seq<int>, y: int)
    requires
        s.len() >= 1,
        s[s.len() - 1] == 1,
        forall|k: int| 0 <= k < s.len() - 1 ==> s[k] == 0,
    ensures
        psum(s, y) == pow(y, (s.len() - 1) as nat),
    decreases s.len(),
{
    reveal(pow);
    if s.len() == 1 {
        assert(s.drop_first().len() == 0);
        assert(psum(s.drop_first(), y) == 0);
        assert(y * 0 == 0);
    } else {
        lemma_psum_monomial(s.drop_first(), y);
        assert(s[0] == 0);
    }
}

/// `X^m - beta^m` written with `m` coefficients: the constant `-beta^m` and the leading 1.
proof fn lemma_psum_coset_vanishing(s: Seq<int>, c: int, y: int, b: int)
    requires
        s.len() >= 2,
        s[0] == c,
        c == (modulus() - b % modulus()) % modulus(),
        s[s.len() - 1] == 1,
        forall|k: int| 0 < k < s.len() - 1 ==> s[k] == 0,
    ensures
        psum(s, y) % modulus() == (pow(y, (s.len() - 1) as nat) - b) % modulus(),
{
    let t = s.drop_first();
    lemma_psum_monomial(t, y);
    reveal(pow);
    let n = (s.len() - 1) as nat;
    assert(psum(s, y) == c + y * pow(y, (n - 1) as nat));
    assert(pow(y, n) == y * pow(y, (n - 1) as nat));
    let p = modulus();
    let bm = b % p;
    lemma_fundamental_div_mod(b, p);
    if bm == 0 {
        lemma_mod_self_0(p);
        assert(c == 0);
        lemma_mod_multiples_vanish(b / p, pow(y, n) - b, p);
        assert(p * (b / p) + (pow(y, n) - b) == pow(y, n));
    } else {
        lemma_small_mod((p - bm) as nat, p as nat);
        assert(c == p - bm);
        lemma_mod_multiples_vanish(1 + b / p, pow(y, n) - b, p);
        assert(p * (1 + b / p) + (pow(y, n) - b) == c + pow(y, n)) by (nonlinear_arith)
            requires
                c == p - bm,
                b == p * (b / p) + bm,
        ;
    }
}

/// Interpolate the local polynomial of group `j` from the received `(position, value)`
/// pairs: the first `min(len, r)` of them fix it through the erasure cofactor of the
/// unnamed positions, every pair must then agree with it, and the result carries the
/// cofactor `(X^m - beta^m) / E` that vanishes on the named positions.
pub fn interpolate(layout: &Layout, j: usize, received: &[(usize, Fe)]) -> (res: Result<(Vec<Fe>, Vec<Fe>)>)
    requires
        j < layout.shape_of().ell,
    ensures
        (res matches Err(e) && e.0@ == "invalid or duplicate received position"@) <==> !positions_ok(
            received@,
            layout.shape_of().m as int,
        ),
        positions_ok(received@, layout.shape_of().m as int) && min_usize(received.len(), layout.shape_of().r) > 0
            && layout.beta(j as int) == 0 ==> (res matches Err(e) && e.0@ == "zero coset representative"@),
        res matches Err(e) ==> (e.0@ == "invalid or duplicate received position"@ || e.0@
            == "zero coset representative"@ || e.0@ == "received values disagree with the local degree bound"@
            || e.0@ == "polynomial division has a nonzero remainder"@),
        res matches Ok((interpolant, cofactor)) ==> {
            let sel = min_usize(received.len(), layout.shape_of().r);
            let named = received@.take(sel as int);
            &&& interpolant.len() == layout.shape_of().r
            &&& forall|k: int| sel <= k < layout.shape_of().r ==> #[trigger] interpolant@[k]@ == 0
            &&& cofactor.len() == sel + 1
            &&& sel == 0 ==> fes(cofactor@) == seq![1int]
            &&& sel > 0 ==> forall|t: int| 0 <= t < received.len() ==> peval(fes(interpolant@), layout.point(j as int, (#[trigger] received@[t]).0 as int)) == received@[t].1@
            &&& sel > 0 ==> forall|y: int| #[trigger] ((psum(fes(cofactor@), y) * prod(unnamed_points(*layout, j as int, named, layout.shape_of().m as int), y)) % modulus()) == (pow(y, layout.shape_of().m as nat) - pow(layout.beta(j as int), layout.shape_of().m as nat)) % modulus()
        },
{
    proof {
        lemma_interpolate_messages();
    }
    let shape = layout.shape();
    let m = shape.m;
    let r = shape.r;
    match mark_positions(m, received, received.len()) {
        Some(_) => {},
        None => {
            assert(received@.take(received.len() as int) == received@);
            return Err(Error("invalid or duplicate received position".to_owned()));
        },
    }
    assert(received@.take(received.len() as int) == received@);
    let sel = min_usize_exec(received.len(), r);
    if sel == 0 {
        let z = vec![Fe::zero(); r];
        let one = vec![Fe::one()];
        proof {
            assert(fes(one@) == seq![1int]);
        }
        return Ok((z, one));
    }
    let ghost named = received@.take(sel as int);
    proof {
        assert forall|t: int, u: int| 0 <= t < u < named.len() implies (#[trigger] named[t]).0
            != (#[trigger] named[u]).0 by {
            assert(named[t] == received@[t]);
            assert(named[u] == received@[u]);
        }
        assert forall|t: int| 0 <= t < named.len() implies (#[trigger] named[t]).0 < m by {
            assert(named[t] == received@[t]);
        }
    }
    let seen = match mark_positions(m, received, sel) {
        Some(s) => s,
        None => {
            return Err(Error("invalid or duplicate received position".to_owned()));
        },
    };
    let beta = layout.beta_at(j);
    let mut erasure: Vec<Fe> = vec![Fe::one()];
    proof {
        assert(unnamed_points(*layout, j as int, named, 0) == Seq::<int>::empty());
        assert(vanish(Seq::<int>::empty()) == seq![1int]);
        assert(fes(erasure@) == seq![1int]);
        assert(seen@.take(0) == Seq::<bool>::empty());
    }
    let mut index: usize = 0;
    while index < m
        invariant
            m == layout.shape_of().m,
            j < layout.shape_of().ell,
            seen.len() == m,
            forall|i: int| 0 <= i < m ==> #[trigger] seen@[i] == names(named, i),
            index <= m,
            erasure.len() == 1 + count_false(seen@.take(index as int)),
            cong(fes(erasure@), vanish(unnamed_points(*layout, j as int, named, index as int))),
        decreases m - index,
    {
        let ghost before = fes(erasure@);
        let ghost pts = unnamed_points(*layout, j as int, named, index as int);
        proof {
            assert(seen@.take(index + 1).drop_last() == seen@.take(index as int));
            assert(seen@.take(index + 1).last() == seen@[index as int]);
        }
        if !seen[index] {
            let x = layout.point_at(j, index);
            multiply_linear(&mut erasure, x);
            proof {
                lemma_cong_lin(before, vanish(pts), x@);
                assert(pts.push(x@).drop_last() == pts);
                assert(vanish(pts.push(x@)) == lin(vanish(pts), x@));
                assert(lin(fes(erasure@), x@) == lin(fes(erasure@), x@));
            }
        }
        index = index + 1;
    }
    proof {
        assert(seen@.take(m as int) == seen@);
    }
    let ghost pts = unnamed_points(*layout, j as int, named, m as int);
    assert(erasure.len() + sel == m + 1);
    let erasure_values = layout.evaluate(j, &erasure);
    let mut weighted: Vec<Fe> = vec![Fe::zero(); m];
    let mut t: usize = 0;
    while t < sel
        invariant
            sel <= received.len(),
            named == received@.take(sel as int),
            forall|u: int| 0 <= u < named.len() ==> (#[trigger] named[u]).0 < m,
            weighted.len() == m,
            erasure_values.len() == m,
            t <= sel,
        decreases sel - t,
    {
        let (index, value) = received[t];
        assert(named[t as int] == received@[t as int]);
        weighted.set(index, value.mul(erasure_values[index]));
        t = t + 1;
    }
    let mut coefficients = crate::domain::fr_ifft(m, &weighted);
    let beta_inverse = match beta.inverse() {
        Some(x) => x,
        None => {
            return Err(Error("zero coset representative".to_owned()));
        },
    };
    let mut power = Fe::one();
    let mut k: usize = 0;
    while k < coefficients.len()
        invariant
            k <= coefficients.len(),
            coefficients.len() == m,
        decreases coefficients.len() - k,
    {
        let c = coefficients[k].mul(power);
        coefficients.set(k, c);
        power = power.mul(beta_inverse);
        k = k + 1;
    }
    proof {
        lemma_vanish_monic(pts);
        let e = fes(erasure@);
        assert(e[e.len() - 1] % modulus() == vanish(pts)[pts.len() as int] % modulus());
        Fe::lemma_range(erasure@[erasure.len() - 1]);
        lemma_small_mod(1, modulus() as nat);
        lemma_small_mod(erasure@[erasure.len() - 1]@ as nat, modulus() as nat);
    }
    let quotient = divide_monic(&coefficients, &erasure)?;
    assert(quotient.len() == sel);
    if quotient.len() > sel {
        let mut k: usize = sel;
        while k < quotient.len()
            invariant
                quotient.len() == sel,
                sel <= k <= quotient.len(),
            decreases quotient.len() - k,
        {
            if !quotient[k].is_zero() {
                proof {
                    lemma_interpolate_messages();
                }
                return Err(Error("interpolant degree exceeds its sample count".to_owned()));
            }
            k = k + 1;
        }
    }
    assert(quotient.len() == sel);
    let mut interpolant: Vec<Fe> = Vec::new();
    let mut k: usize = 0;
    while k < r
        invariant
            k <= r,
            interpolant.len() == k,
            forall|u: int| 0 <= u < k && u < quotient.len() ==> #[trigger] interpolant@[u] == quotient@[u],
            forall|u: int| 0 <= u < k && u >= quotient.len() ==> #[trigger] interpolant@[u]@ == 0,
        decreases r - k,
    {
        if k < quotient.len() {
            interpolant.push(quotient[k]);
        } else {
            interpolant.push(Fe::zero());
        }
        k = k + 1;
    }
    let mut t: usize = 0;
    while t < received.len()
        invariant
            j < layout.shape_of().ell,
            m == layout.shape_of().m,
            positions_ok(received@, m as int),
            beta@ == layout.beta(j as int),
            beta@ != 0,
            t <= received.len(),
            forall|u: int| 0 <= u < t ==> peval(fes(interpolant@), layout.point(j as int, (#[trigger] received@[u]).0 as int)) == received@[u].1@,
        decreases received.len() - t,
    {
        let (index, value) = received[t];
        let x = layout.point_at(j, index);
        let v = evaluate(&interpolant, x);
        if v != value {
            proof {
                lemma_interpolate_messages();
            }
            return Err(Error("received values disagree with the local degree bound".to_owned()));
        }
        t = t + 1;
    }
    let mut full: Vec<Fe> = vec![Fe::zero(); m + 1];
    let top = beta.pow(m as u64);
    full.set(0, top.neg());
    full.set(m, Fe::one());
    let cofactor = divide_monic(&full, &erasure)?;
    proof {
        let b = pow(beta@, m as nat);
        let f = fes(full@);
        assert(m >= 1);
        assert(f.len() == m + 1);
        assert(f[0] == (modulus() - top@) % modulus());
        assert(f[m as int] == 1);
        assert forall|u: int| 0 < u < f.len() - 1 implies f[u] == 0 by {
            assert(full@[u]@ == 0);
        }
        Fe::lemma_range(top);
        lemma_mod_twice(b, modulus());
        assert(top@ == b % modulus());
        assert forall|y: int| #[trigger] ((psum(fes(cofactor@), y) * prod(pts, y)) % modulus()) == (pow(y, m as nat) - b) % modulus() by {
            assert(peval(fes(full@), y) == (psum(fes(cofactor@), y) * psum(fes(erasure@), y)) % modulus());
            lemma_psum_coset_vanishing(f, f[0], y, b);
            lemma_psum_cong(fes(erasure@), vanish(pts), y, y);
            lemma_psum_vanish(pts, y);
            lemma_mul_mod_noop_right(psum(fes(cofactor@), y), psum(fes(erasure@), y), modulus());
            lemma_mul_mod_noop_right(psum(fes(cofactor@), y), prod(pts, y), modulus());
        }
    }
    Ok((interpolant, cofactor))
}

/// The smaller of two lengths.
pub open spec fn min_usize(x: usize, y: usize) -> usize {
    if x < y {
        x
    } else {
        y
    }
}

fn min_usize_exec(x: usize, y: usize) -> (z: usize)
    ensures
        z == min_usize(x, y),
{
    if x < y {
        x
    } else {
        y
    }
}

/// The interpolation messages are different texts.
proof fn lemma_interpolate_messages()
    ensures
        "invalid or duplicate received position"@ != "zero coset representative"@,
        "invalid or duplicate received position"@ != "received values disagree with the local degree bound"@,
        "invalid or duplicate received position"@ != "polynomial division has a nonzero remainder"@,
        "invalid or duplicate received position"@ != "interpolant degree exceeds its sample count"@,
        "invalid or duplicate received position"@ != "division requires a monic polynomial"@,
{
    reveal_strlit("invalid or duplicate received position");
    reveal_strlit("zero coset representative");
    reveal_strlit("received values disagree with the local degree bound");
    reveal_strlit("polynomial division has a nonzero remainder");
    reveal_strlit("interpolant degree exceeds its sample count");
    reveal_strlit("division requires a monic polynomial");
    assert("invalid or duplicate received position"@[0] != "zero coset representative"@[0]);
    assert("invalid or duplicate received position"@[0] != "received values disagree with the local degree bound"@[0]);
    assert("invalid or duplicate received position"@[0] != "polynomial division has a nonzero remainder"@[0]);
    assert("invalid or duplicate received position"@[2] != "interpolant degree exceeds its sample count"@[2]);
    assert("invalid or duplicate received position"@[0] != "division requires a monic polynomial"@[0]);
}

/// `sum_{c < n} row[c] x[c]`.
pub open spec fn dot(row: Seq<int>, x: Seq<int>, n: int) -> int
    decreases n,
{
    if n <= 0 {
        0
    } else {
        dot(row, x, n - 1) + row[n - 1] * x[n - 1]
    }
}

/// The augmented row `row` (coefficients, then the right-hand side at `n`) holds at `x`.
pub open spec fn holds(row: Seq<int>, x: Seq<int>, n: int) -> bool {
    (dot(row, x, n) - row[n]) % modulus() == 0
}

/// `x` solves every row of the augmented system.
pub open spec fn solves(rows: Seq<Seq<int>>, x: Seq<int>, n: int) -> bool {
    forall|i: int| 0 <= i < rows.len() ==> holds(#[trigger] rows[i], x, n)
}

/// The values of a matrix of field elements.
pub open spec fn rows_of(matrix: Seq<Vec<Fe>>) -> Seq<Seq<int>> {
    Seq::new(matrix.len(), |i: int| fes(matrix[i]@))
}

/// Dot products are linear in the row.
proof fn lemma_dot_linear(a: Seq<int>, b: Seq<int>, c: Seq<int>, x: Seq<int>, n: int, f: int, g: int)
    requires
        forall|k: int| 0 <= k < n ==> #[trigger] c[k] == f * a[k] + g * b[k],
    ensures
        dot(c, x, n) == f * dot(a, x, n) + g * dot(b, x, n),
    decreases n,
{
    if n > 0 {
        lemma_dot_linear(a, b, c, x, n - 1, f, g);
        let k = n - 1;
        assert(c[k] == f * a[k] + g * b[k]);
        assert((f * a[k] + g * b[k]) * x[k] == f * (a[k] * x[k]) + g * (b[k] * x[k]))
            by (nonlinear_arith);
        assert(f * dot(a, x, n - 1) + g * dot(b, x, n - 1) + f * (a[k] * x[k]) + g * (b[k] * x[k])
            == f * (dot(a, x, n - 1) + a[k] * x[k]) + g * (dot(b, x, n - 1) + b[k] * x[k]))
            by (nonlinear_arith);
    }
}

/// Congruent rows have congruent dot products.
proof fn lemma_dot_cong(a: Seq<int>, b: Seq<int>, x: Seq<int>, n: int)
    requires
        forall|k: int| 0 <= k < n ==> #[trigger] (a[k] % modulus()) == b[k] % modulus(),
    ensures
        dot(a, x, n) % modulus() == dot(b, x, n) % modulus(),
    decreases n,
{
    if n > 0 {
        let p = modulus();
        lemma_dot_cong(a, b, x, n - 1);
        let k = n - 1;
        assert(a[k] % p == b[k] % p);
        lemma_mul_mod_noop_general(a[k], x[k], p);
        lemma_mul_mod_noop_general(b[k], x[k], p);
        lemma_add_mod_noop(dot(a, x, n - 1), a[k] * x[k], p);
        lemma_add_mod_noop(dot(b, x, n - 1), b[k] * x[k], p);
    }
}

/// The residual of `g a - f b` is `g` times that of `a` minus `f` times that of `b`.
proof fn lemma_row_combination(a: Seq<int>, b: Seq<int>, c: Seq<int>, x: Seq<int>, n: int, f: int, g: int)
    requires
        0 <= n,
        forall|k: int| 0 <= k <= n ==> #[trigger] (c[k] % modulus()) == (g * a[k] - f * b[k]) % modulus(),
    ensures
        (dot(c, x, n) - c[n]) % modulus() == (g * (dot(a, x, n) - a[n]) - f * (dot(b, x, n) - b[n]))
            % modulus(),
{
    let p = modulus();
    let d = Seq::new((n + 1) as nat, |k: int| g * a[k] + (-f) * b[k]);
    assert forall|k: int| 0 <= k < n implies #[trigger] d[k] == g * a[k] + (-f) * b[k] by {}
    lemma_dot_linear(a, b, d, x, n, g, -f);
    assert forall|k: int| 0 <= k < n implies #[trigger] (c[k] % p) == d[k] % p by {
        assert(c[k] % p == (g * a[k] - f * b[k]) % p);
        assert(g * a[k] - f * b[k] == g * a[k] + (-f) * b[k]) by (nonlinear_arith);
    }
    lemma_dot_cong(c, d, x, n);
    assert(c[n] % p == (g * a[n] - f * b[n]) % p);
    lemma_sub_mod_noop(dot(c, x, n), c[n], p);
    lemma_sub_mod_noop(dot(d, x, n), g * a[n] - f * b[n], p);
    assert(g * dot(a, x, n) + (-f) * dot(b, x, n) - (g * a[n] - f * b[n]) == g * (dot(a, x, n)
        - a[n]) - f * (dot(b, x, n) - b[n])) by (nonlinear_arith);
}

/// Subtracting a multiple of a row that holds keeps the other row's truth.
proof fn lemma_eliminate(a: Seq<int>, b: Seq<int>, c: Seq<int>, x: Seq<int>, n: int, f: int)
    requires
        0 <= n,
        forall|k: int| 0 <= k <= n ==> #[trigger] (c[k] % modulus()) == (1 * a[k] - f * b[k]) % modulus(),
        holds(b, x, n),
    ensures
        holds(c, x, n) == holds(a, x, n),
{
    let p = modulus();
    lemma_row_combination(a, b, c, x, n, f, 1);
    let ra = dot(a, x, n) - a[n];
    let rb = dot(b, x, n) - b[n];
    lemma_mul_mod_noop_right(f, rb, p);
    assert(f * 0 == 0);
    lemma_sub_mod_noop(1 * ra, f * rb, p);
    lemma_mod_twice(ra, p);
    assert(1 * ra == ra);
    assert((f * rb) % p == 0);
    assert(((ra % p) - 0) % p == ra % p);
}

/// Scaling a row by an invertible factor keeps its truth.
proof fn lemma_scale(a: Seq<int>, c: Seq<int>, x: Seq<int>, n: int, g: int, h: int)
    requires
        0 <= n,
        forall|k: int| 0 <= k <= n ==> #[trigger] (c[k] % modulus()) == (g * a[k] - 0 * a[k]) % modulus(),
        (h * g) % modulus() == 1,
    ensures
        holds(c, x, n) == holds(a, x, n),
{
    let p = modulus();
    lemma_row_combination(a, a, c, x, n, 0, g);
    let ra = dot(a, x, n) - a[n];
    assert(g * ra - 0 * ra == g * ra) by (nonlinear_arith);
    lemma_mul_mod_noop_right(g, ra, p);
    lemma_mul_mod_noop_right(h, g * ra, p);
    lemma_mul_mod_noop_left(h * g, ra, p);
    assert(h * (g * ra) == (h * g) * ra) by (nonlinear_arith);
    assert(1 * ra == ra);
    if ra % p == 0 {
        assert(g * 0 == 0);
    }
    if (g * ra) % p == 0 {
        assert(h * 0 == 0);
    }
}

/// Changing `x` at `i` changes the dot product by `row[i]` times the change.
proof fn lemma_dot_update(row: Seq<int>, x: Seq<int>, n: int, i: int, v: int)
    requires
        0 <= i < x.len(),
        n <= x.len(),
    ensures
        dot(row, x.update(i, v), n) == dot(row, x, n) + if 0 <= i < n {
            row[i] * (v - x[i])
        } else {
            0
        },
    decreases n,
{
    if n > 0 {
        lemma_dot_update(row, x, n - 1, i, v);
        if i == n - 1 {
            assert(row[i] * v == row[i] * x[i] + row[i] * (v - x[i])) by (nonlinear_arith);
        }
    }
}

/// A row that is zero below `k` has the dot product of its part from `k` on.
proof fn lemma_dot_zero_prefix(row: Seq<int>, x: Seq<int>, k: int)
    requires
        0 <= k,
        forall|c: int| 0 <= c < k ==> #[trigger] row[c] == 0,
    ensures
        dot(row, x, k) == 0,
    decreases k,
{
    if k > 0 {
        lemma_dot_zero_prefix(row, x, k - 1);
        assert(row[k - 1] * x[k - 1] == 0 * x[k - 1]);
    }
}

/// Every row has `n` coefficients and a right-hand side.
pub open spec fn augmented(rows: Seq<Seq<int>>, n: int) -> bool {
    forall|i: int| 0 <= i < rows.len() ==> (#[trigger] rows[i]).len() == n + 1
}

/// Two systems have the same solutions.
pub open spec fn equivalent(a: Seq<Seq<int>>, b: Seq<Seq<int>>, n: int) -> bool {
    forall|x: Seq<int>| #[trigger] solves(a, x, n) == solves(b, x, n)
}

/// `row` scaled so that its entry at `column` becomes one; the entries before `column`
/// are zero.
fn scale_row(row: &[Fe], column: usize, inverse: Fe) -> (out: Vec<Fe>)
    requires
        column < row.len(),
        (row@[column as int]@ * inverse@) % modulus() == 1,
        forall|c: int| 0 <= c < column ==> #[trigger] row@[c]@ == 0,
    ensures
        out.len() == row.len(),
        out@[column as int]@ == 1,
        forall|c: int| 0 <= c < column ==> #[trigger] out@[c]@ == 0,
        forall|c: int|
            0 <= c < row.len() ==> #[trigger] (fes(out@)[c] % modulus()) == (inverse@ * fes(row@)[c] - 0
                * fes(row@)[c]) % modulus(),
{
    let ghost p = modulus();
    let mut out = copy_elements(row);
    out.set(column, Fe::one());
    let mut c: usize = column + 1;
    while c < out.len()
        invariant
            p == modulus(),
            out.len() == row.len(),
            column < c <= out.len(),
            out@[column as int]@ == 1,
            forall|k: int| 0 <= k < column ==> #[trigger] out@[k] == row@[k],
            forall|k: int| column < k < c ==> #[trigger] out@[k]@ == (row@[k]@ * inverse@) % p,
            forall|k: int| c <= k < out.len() ==> #[trigger] out@[k] == row@[k],
        decreases out.len() - c,
    {
        let v = out[c].mul(inverse);
        out.set(c, v);
        c = c + 1;
    }
    proof {
        assert forall|k: int| 0 <= k < row.len() implies #[trigger] (fes(out@)[k] % p) == (inverse@
            * fes(row@)[k] - 0 * fes(row@)[k]) % p by {
            let r = row@[k]@;
            assert(inverse@ * r - 0 * r == r * inverse@) by (nonlinear_arith);
            Fe::lemma_range(out@[k]);
            lemma_small_mod(out@[k]@ as nat, p as nat);
            if k < column {
                assert(r * inverse@ == 0 * inverse@);
                lemma_small_mod(0, p as nat);
            } else if k == column {
            } else {
                lemma_mod_twice(r * inverse@, p);
            }
        }
    }
    out
}

/// `row` minus `factor` times `pivot`, where `pivot` is zero before `column` and one at
/// `column` and `factor` is the entry of `row` at `column`.
fn eliminate_row(row: &[Fe], pivot: &[Fe], column: usize, factor: Fe) -> (out: Vec<Fe>)
    requires
        row.len() == pivot.len(),
        column < row.len(),
        factor == row@[column as int],
        pivot@[column as int]@ == 1,
        forall|c: int| 0 <= c < column ==> #[trigger] pivot@[c]@ == 0,
    ensures
        out.len() == row.len(),
        out@[column as int]@ == 0,
        forall|c: int| 0 <= c < column ==> #[trigger] out@[c] == row@[c],
        forall|c: int|
            0 <= c < row.len() ==> #[trigger] (fes(out@)[c] % modulus()) == (1 * fes(row@)[c]
                - factor@ * fes(pivot@)[c]) % modulus(),
{
    let ghost p = modulus();
    let mut out = copy_elements(row);
    out.set(column, Fe::zero());
    let mut c: usize = column + 1;
    while c < out.len()
        invariant
            p == modulus(),
            out.len() == row.len(),
            row.len() == pivot.len(),
            column < c <= out.len(),
            out@[column as int]@ == 0,
            forall|k: int| 0 <= k < column ==> #[trigger] out@[k] == row@[k],
            forall|k: int|
                column < k < c ==> #[trigger] out@[k]@ == (row@[k]@ + p - (factor@ * pivot@[k]@)
                    % p) % p,
            forall|k: int| c <= k < out.len() ==> #[trigger] out@[k] == row@[k],
        decreases out.len() - c,
    {
        let v = out[c].sub(factor.mul(pivot[c]));
        out.set(c, v);
        c = c + 1;
    }
    proof {
        assert forall|k: int| 0 <= k < row.len() implies #[trigger] (fes(out@)[k] % p) == (1
            * fes(row@)[k] - factor@ * fes(pivot@)[k]) % p by {
            let r = row@[k]@;
            let q = pivot@[k]@;
            assert(1 * r == r);
            Fe::lemma_range(out@[k]);
            lemma_small_mod(out@[k]@ as nat, p as nat);
            if k < column {
                assert(factor@ * q == factor@ * 0);
                assert(r - factor@ * 0 == r);
                Fe::lemma_range(row@[k]);
                lemma_small_mod(r as nat, p as nat);
            } else if k == column {
                assert(factor@ * q == factor@ * 1);
                assert(r - factor@ * 1 == 0);
                lemma_small_mod(0, p as nat);
            } else {
                lemma_sub_mul_mod(r, factor@, q);
                lemma_mod_twice(r - factor@ * q, p);
            }
        }
    }
    out
}

/// Row echelon form over the first `column` columns with `rank` pivot rows: every pivot
/// row is one at its pivot and zero before it, pivots increase, and the rows from `rank`
/// on are zero over the first `column` columns.
pub open spec fn echelon(rows: Seq<Seq<int>>, pivots: Seq<usize>, rank: int, column: int) -> bool {
    &&& pivots.len() == rank
    &&& rank <= rows.len()
    &&& forall|k: int| 0 <= k < rank ==> #[trigger] pivots[k] < column
    &&& forall|k: int, k2: int| 0 <= k < k2 < rank ==> #[trigger] pivots[k] < #[trigger] pivots[k2]
    &&& forall|k: int| 0 <= k < rank ==> #[trigger] rows[k][pivots[k] as int] == 1
    &&& forall|k: int, c: int| 0 <= k < rank && 0 <= c < pivots[k] ==> #[trigger] rows[k][c] == 0
    &&& forall|k: int, c: int| rank <= k < rows.len() && 0 <= c < column ==> #[trigger] rows[k][c] == 0
}

/// The homogeneous system of `rows`: every right-hand side set to zero.
pub open spec fn homogeneous(rows: Seq<Seq<int>>, n: int) -> Seq<Seq<int>> {
    Seq::new(rows.len(), |k: int| rows[k].update(n, 0))
}

/// Replacing a row by one with the same solutions keeps the system's solutions.
proof fn lemma_replace_row(rows: Seq<Seq<int>>, i: int, row: Seq<int>, n: int)
    requires
        0 <= i < rows.len(),
        forall|x: Seq<int>| #[trigger] holds(row, x, n) == holds(rows[i], x, n),
    ensures
        equivalent(rows, rows.update(i, row), n),
{
    let new_rows = rows.update(i, row);
    assert forall|x: Seq<int>| #[trigger] solves(rows, x, n) == solves(new_rows, x, n) by {
        if solves(rows, x, n) {
            assert forall|k: int| 0 <= k < new_rows.len() implies holds(#[trigger] new_rows[k], x, n) by {
                assert(holds(rows[k], x, n));
            }
        }
        if solves(new_rows, x, n) {
            assert forall|k: int| 0 <= k < rows.len() implies holds(#[trigger] rows[k], x, n) by {
                assert(holds(new_rows[k], x, n));
            }
        }
    }
}

/// Replacing row `i` by one whose truth matches it wherever row `q` holds keeps the
/// system's solutions, as long as row `q` stays.
proof fn lemma_replace_row_given(rows: Seq<Seq<int>>, i: int, q: int, row: Seq<int>, n: int)
    requires
        0 <= i < rows.len(),
        0 <= q < rows.len(),
        i != q,
        forall|x: Seq<int>| holds(rows[q], x, n) ==> #[trigger] holds(row, x, n) == holds(rows[i], x, n),
    ensures
        equivalent(rows, rows.update(i, row), n),
{
    let new_rows = rows.update(i, row);
    assert forall|x: Seq<int>| #[trigger] solves(rows, x, n) == solves(new_rows, x, n) by {
        if solves(rows, x, n) {
            assert(holds(rows[q], x, n));
            assert forall|k: int| 0 <= k < new_rows.len() implies holds(#[trigger] new_rows[k], x, n) by {
                assert(holds(rows[k], x, n));
            }
        }
        if solves(new_rows, x, n) {
            assert(holds(new_rows[q], x, n));
            assert forall|k: int| 0 <= k < rows.len() implies holds(#[trigger] rows[k], x, n) by {
                assert(holds(new_rows[k], x, n));
            }
        }
    }
}

/// Exchanging two rows keeps the system's solutions.
proof fn lemma_swap_rows(rows: Seq<Seq<int>>, i: int, j: int, n: int)
    requires
        0 <= i < rows.len(),
        0 <= j < rows.len(),
    ensures
        equivalent(rows, rows.update(i, rows[j]).update(j, rows[i]), n),
{
    let new_rows = rows.update(i, rows[j]).update(j, rows[i]);
    assert forall|x: Seq<int>| #[trigger] solves(rows, x, n) == solves(new_rows, x, n) by {
        if solves(rows, x, n) {
            assert forall|k: int| 0 <= k < new_rows.len() implies holds(#[trigger] new_rows[k], x, n) by {
                if k == j {
                    assert(holds(rows[i], x, n));
                } else if k == i {
                    assert(holds(rows[j], x, n));
                } else {
                    assert(holds(rows[k], x, n));
                }
            }
        }
        if solves(new_rows, x, n) {
            assert forall|k: int| 0 <= k < rows.len() implies holds(#[trigger] rows[k], x, n) by {
                if k == i {
                    assert(holds(new_rows[j], x, n));
                } else if k == j {
                    assert(holds(new_rows[i], x, n));
                } else {
                    assert(holds(new_rows[k], x, n));
                }
            }
        }
    }
}

/// One elimination step at `column` with its pivot found in row `found`: bring it to row
/// `rank`, scale it to one and clear the column below it.
fn pivot_step(matrix: &mut Vec<Vec<Fe>>, n: usize, pivots: &Vec<usize>, rank: usize, column: usize, found: usize)
    requires
        augmented(rows_of(old(matrix)@), n as int),
        echelon(rows_of(old(matrix)@), pivots@, rank as int, column as int),
        rank <= found < old(matrix).len(),
        column < n,
        rows_of(old(matrix)@)[found as int][column as int] != 0,
    ensures
        final(matrix).len() == old(matrix).len(),
        augmented(rows_of(final(matrix)@), n as int),
        equivalent(rows_of(old(matrix)@), rows_of(final(matrix)@), n as int),
        equivalent(
            homogeneous(rows_of(old(matrix)@), n as int),
            homogeneous(rows_of(final(matrix)@), n as int),
            n as int,
        ),
        echelon(rows_of(final(matrix)@), pivots@.push(column), rank + 1, column + 1),
{
    let ghost start = rows_of(matrix@);
    let ghost hstart = homogeneous(start, n as int);
    let rows = matrix.len();
    if found != rank {
        let a = copy_elements(&matrix[rank]);
        let b = copy_elements(&matrix[found]);
        matrix.set(rank, b);
        matrix.set(found, a);
        proof {
            lemma_swap_rows(start, rank as int, found as int, n as int);
            assert(rows_of(matrix@) == start.update(rank as int, start[found as int]).update(found as int, start[rank as int]));
            lemma_swap_rows(hstart, rank as int, found as int, n as int);
            assert(homogeneous(rows_of(matrix@), n as int) =~= hstart.update(rank as int, hstart[found as int]).update(
                found as int,
                hstart[rank as int],
            ));
        }
    } else {
        assert(rows_of(matrix@) == start);
    }
    let ghost swapped = rows_of(matrix@);
    let pivot_value = matrix[rank][column];
    assert(pivot_value@ == swapped[rank as int][column as int]);
    let inverse = match pivot_value.inverse() {
        Some(v) => v,
        None => {
            return;
        },
    };
    proof {
        assert(swapped[rank as int] == fes(matrix@[rank as int]@));
        assert(swapped[rank as int] == start[found as int]);
        assert forall|c: int| 0 <= c < column implies #[trigger] matrix@[rank as int]@[c]@ == 0 by {
            assert(start[found as int][c] == 0);
            assert(fes(matrix@[rank as int]@)[c] == matrix@[rank as int]@[c]@);
        }
        assert(start[found as int].len() == n + 1);
    }
    let scaled_row = scale_row(&matrix[rank], column, inverse);
    proof {
        let old_row = swapped[rank as int];
        let new_row = fes(scaled_row@);
        assert(pivot_value@ * inverse@ == inverse@ * pivot_value@) by (nonlinear_arith);
        assert forall|x: Seq<int>| #[trigger] holds(new_row, x, n as int) == holds(old_row, x, n as int) by {
            lemma_scale(old_row, new_row, x, n as int, inverse@, pivot_value@);
        }
        lemma_replace_row(swapped, rank as int, new_row, n as int);
        let hs = homogeneous(swapped, n as int);
        assert forall|x: Seq<int>| #[trigger] holds(new_row.update(n as int, 0), x, n as int) == holds(hs[rank as int], x, n as int) by {
            assert forall|k: int| 0 <= k <= n implies #[trigger] (new_row.update(n as int, 0)[k] % modulus()) == (inverse@
                * old_row.update(n as int, 0)[k] - 0 * old_row.update(n as int, 0)[k]) % modulus() by {
                if k == n {
                    assert(inverse@ * 0 - 0 * 0 == 0) by (nonlinear_arith);
                    lemma_small_mod(0, modulus() as nat);
                }
            }
            lemma_scale(old_row.update(n as int, 0), new_row.update(n as int, 0), x, n as int, inverse@, pivot_value@);
        }
        lemma_replace_row(hs, rank as int, new_row.update(n as int, 0), n as int);
    }
    matrix.set(rank, scaled_row);
    assert(homogeneous(rows_of(matrix@), n as int) =~= homogeneous(swapped, n as int).update(
        rank as int,
        fes(matrix@[rank as int]@).update(n as int, 0),
    ));
    let ghost scaled = rows_of(matrix@);
    assert(scaled == swapped.update(rank as int, fes(matrix@[rank as int]@)));
    let pivot = copy_elements(&matrix[rank]);
    let mut i: usize = rank + 1;
    while i < rows
        invariant
            matrix.len() == rows,
            rank < i <= rows,
            column < n,
            pivot@ == matrix@[rank as int]@,
            pivot.len() == n + 1,
            pivot@[column as int]@ == 1,
            forall|c: int| 0 <= c < column ==> #[trigger] pivot@[c]@ == 0,
            augmented(rows_of(matrix@), n as int),
            equivalent(start, rows_of(matrix@), n as int),
            equivalent(hstart, homogeneous(rows_of(matrix@), n as int), n as int),
            hstart == homogeneous(start, n as int),
            forall|k: int| 0 <= k < rank ==> #[trigger] rows_of(matrix@)[k] == start[k],
            forall|k: int, c: int| rank < k < rows && 0 <= c < column ==> #[trigger] rows_of(matrix@)[k][c] == 0,
            forall|k: int| rank < k < i ==> #[trigger] rows_of(matrix@)[k][column as int] == 0,
        decreases rows - i,
    {
        let ghost before = rows_of(matrix@);
        assert(before[i as int] == fes(matrix@[i as int]@));
        assert(before[i as int].len() == n + 1);
        let factor = matrix[i][column];
        if !factor.is_zero() {
            let new_row = eliminate_row(&matrix[i], &pivot, column, factor);
            proof {
                assert(before[rank as int] == fes(pivot@));
                assert forall|x: Seq<int>| holds(before[rank as int], x, n as int) implies #[trigger] holds(fes(new_row@), x, n as int) == holds(before[i as int], x, n as int) by {
                    lemma_eliminate(before[i as int], before[rank as int], fes(new_row@), x, n as int, factor@);
                }
                lemma_replace_row_given(before, i as int, rank as int, fes(new_row@), n as int);
                let hb = homogeneous(before, n as int);
                let hn = fes(new_row@).update(n as int, 0);
                assert forall|x: Seq<int>| holds(hb[rank as int], x, n as int) implies #[trigger] holds(hn, x, n as int) == holds(hb[i as int], x, n as int) by {
                    assert forall|k: int| 0 <= k <= n implies #[trigger] (hn[k] % modulus()) == (1 * hb[i as int][k]
                        - factor@ * hb[rank as int][k]) % modulus() by {
                        if k == n {
                            assert(1 * 0 - factor@ * 0 == 0) by (nonlinear_arith);
                            lemma_small_mod(0, modulus() as nat);
                        }
                    }
                    lemma_eliminate(hb[i as int], hb[rank as int], hn, x, n as int, factor@);
                }
                lemma_replace_row_given(hb, i as int, rank as int, hn, n as int);
            }
            matrix.set(i, new_row);
            assert(rows_of(matrix@) == before.update(i as int, fes(matrix@[i as int]@)));
            assert(homogeneous(rows_of(matrix@), n as int) =~= homogeneous(before, n as int).update(
                i as int,
                fes(matrix@[i as int]@).update(n as int, 0),
            ));
            proof {
                assert forall|c: int| 0 <= c < column implies #[trigger] rows_of(matrix@)[i as int][c] == 0 by {
                    assert(before[i as int][c] == 0);
                }
                assert(rows_of(matrix@)[i as int][column as int] == 0);
            }
        } else {
            assert(before[i as int][column as int] == 0);
        }
        i = i + 1;
    }
}

/// The rows of an augmented matrix have `n + 1` entries.
proof fn lemma_augmented_lengths(m: Seq<Vec<Fe>>, n: int)
    requires
        augmented(rows_of(m), n),
    ensures
        forall|k: int| 0 <= k < m.len() ==> (#[trigger] m[k]).len() == n + 1,
{
    assert forall|k: int| 0 <= k < m.len() implies (#[trigger] m[k]).len() == n + 1 by {
        assert(rows_of(m)[k] == fes(m[k]@));
        assert(fes(m[k]@).len() == m[k]@.len());
    }
}

/// Strictly increasing naturals below `n`, `n` of them, are `0, ..., n - 1`.
proof fn lemma_increasing_identity(s: Seq<usize>, n: int)
    requires
        s.len() == n,
        forall|k: int| 0 <= k < n ==> #[trigger] s[k] < n,
        forall|k: int, k2: int| 0 <= k < k2 < n ==> #[trigger] s[k] < #[trigger] s[k2],
    ensures
        forall|k: int| 0 <= k < n ==> #[trigger] s[k] == k,
{
    assert forall|k: int| 0 <= k < n implies #[trigger] s[k] == k by {
        lemma_increasing_gap(s, n, 0, k);
        lemma_increasing_gap(s, n, k, n - 1);
    }
}

/// Strictly increasing naturals grow by at least the index gap.
proof fn lemma_increasing_gap(s: Seq<usize>, n: int, k: int, k2: int)
    requires
        s.len() == n,
        0 <= k <= k2 < n,
        forall|u: int, v: int| 0 <= u < v < n ==> #[trigger] s[u] < #[trigger] s[v],
    ensures
        s[k2] >= s[k] + (k2 - k),
    decreases k2 - k,
{
    if k < k2 {
        lemma_increasing_gap(s, n, k, k2 - 1);
        assert(s[k2 - 1] < s[k2]);
    }
}

/// Back substitution on unit upper-triangular rows `0..n`: the values that make every one
/// of them hold.
fn back_substitute(matrix: &Vec<Vec<Fe>>, n: usize) -> (x: Vec<Fe>)
    requires
        n <= matrix.len(),
        augmented(rows_of(matrix@), n as int),
        forall|k: int| 0 <= k < n ==> #[trigger] rows_of(matrix@)[k][k] == 1,
        forall|k: int, c: int| 0 <= k < n && 0 <= c < k ==> #[trigger] rows_of(matrix@)[k][c] == 0,
    ensures
        x.len() == n,
        forall|k: int| 0 <= k < n ==> holds(#[trigger] rows_of(matrix@)[k], fes(x@), n as int),
{
    let ghost rows = rows_of(matrix@);
    let ghost p = modulus();
    let mut result: Vec<Fe> = vec![Fe::zero(); n];
    let mut k: usize = n;
    while k > 0
        invariant
            rows == rows_of(matrix@),
            p == modulus(),
            n <= matrix.len(),
            augmented(rows, n as int),
            forall|u: int| 0 <= u < n ==> #[trigger] rows[u][u] == 1,
            forall|u: int, c: int| 0 <= u < n && 0 <= c < u ==> #[trigger] rows[u][c] == 0,
            k <= n,
            result.len() == n,
            forall|u: int| k <= u < n ==> holds(#[trigger] rows[u], fes(result@), n as int),
        decreases k,
    {
        k = k - 1;
        let ghost row = rows[k as int];
        assert(row == fes(matrix@[k as int]@));
        assert(row.len() == n + 1);
        assert(matrix@[k as int].len() == n + 1);
        let mut acc = Fe::zero();
        let mut c: usize = k + 1;
        proof {
            lemma_small_mod(0, p as nat);
        }
        while c < n
            invariant
                rows == rows_of(matrix@),
                row == rows[k as int],
                row == fes(matrix@[k as int]@),
                row.len() == n + 1,
                n <= matrix.len(),
                matrix@[k as int].len() == n + 1,
                p == modulus(),
                k < c <= n,
                result.len() == n,
                acc@ == (dot(row, fes(result@), c as int) - dot(row, fes(result@), k + 1)) % p,
            decreases n - c,
        {
            let term = matrix[k][c].mul(result[c]);
            proof {
                let d0 = dot(row, fes(result@), c as int) - dot(row, fes(result@), k + 1);
                assert(dot(row, fes(result@), c + 1) == dot(row, fes(result@), c as int) + row[c as int] * fes(result@)[c as int]);
                lemma_add_mod_noop(d0, row[c as int] * fes(result@)[c as int], p);
            }
            acc = acc.add(term);
            c = c + 1;
        }
        let v = matrix[k][n].sub(acc);
        let ghost before = fes(result@);
        result.set(k, v);
        proof {
            let after = fes(result@);
            assert(after == before.update(k as int, v@));
            lemma_dot_update(row, before, n as int, k as int, v@);
            lemma_dot_update(row, before, k + 1, k as int, v@);
            lemma_dot_zero_prefix(row, after, k as int);
            assert(dot(row, after, k + 1) == dot(row, after, k as int) + row[k as int] * after[k as int]);
            assert(row[k as int] * after[k as int] == v@);
            // The residual of row `k` is `v + tail - rhs`, with `v = rhs - acc` and `acc = tail`.
            let tail = dot(row, before, n as int) - dot(row, before, k + 1);
            assert(dot(row, after, n as int) == v@ + tail);
            lemma_sub_mod_noop(row[n as int] + p, acc@, p);
            lemma_mod_twice(tail, p);
            lemma_sub_mod_noop(tail, acc@, p);
            lemma_mod_add_multiples_vanish(row[n as int] - acc@, p);
            lemma_add_mod_noop(v@, tail - row[n as int], p);
            lemma_add_mod_noop(row[n as int] - acc@, tail - row[n as int], p);
            assert(v@ == (row[n as int] + p - acc@) % p);
            assert((row[n as int] - acc@) + (tail - row[n as int]) == tail - acc@);
            assert((tail - acc@) % p == 0) by {
                lemma_mod_twice(tail, p);
            }
            assert(holds(row, after, n as int));
            assert forall|u: int| k < u < n implies holds(#[trigger] rows[u], after, n as int) by {
                assert(holds(rows[u], before, n as int));
                assert(rows[u][k as int] == 0);
                lemma_dot_update(rows[u], before, n as int, k as int, v@);
                assert(rows[u][k as int] * (v@ - before[k as int]) == 0 * (v@ - before[k as int]));
            }
        }
    }
    result
}

/// The outcome of Gaussian elimination on an augmented system: the number of pivots,
/// whether no reduced row reads `0 = c` with `c != 0`, and the solution where it is
/// unique.
pub struct LinearSolution {
    pub rank: usize,
    pub consistent: bool,
    pub values: Option<Vec<Fe>>,
}

/// `m` is an echelon form of the system `a` in `n` unknowns with `rank` pivot rows: the
/// same number of rows, the same solutions, the same solutions of the homogeneous system
/// (so `rank` is the rank of the coefficient matrix), and `consistent` exactly when every
/// row past the pivots reads `0 = 0`.
pub open spec fn echelon_form_of(
    a: Seq<Seq<int>>,
    n: int,
    rank: int,
    consistent: bool,
    m: Seq<Seq<int>>,
    piv: Seq<usize>,
) -> bool {
    &&& m.len() == a.len()
    &&& augmented(m, n)
    &&& equivalent(a, m, n)
    &&& equivalent(homogeneous(a, n), homogeneous(m, n), n)
    &&& echelon(m, piv, rank, n)
    &&& (consistent <==> forall|k: int| rank <= k < m.len() ==> #[trigger] m[k][n] == 0)
}

/// The system `a` has an echelon form with `rank` pivot rows whose consistency is
/// `consistent`.
pub open spec fn has_echelon_form(a: Seq<Seq<int>>, n: int, rank: int, consistent: bool) -> bool {
    exists|m: Seq<Seq<int>>, piv: Seq<usize>| #[trigger] echelon_form_of(a, n, rank, consistent, m, piv)
}

/// Solve the augmented system `matrix` in `unknowns` unknowns by Gaussian elimination.
pub fn solve(matrix: Vec<Vec<Fe>>, unknowns: usize) -> (res: Result<LinearSolution>)
    ensures
        res is Ok <==> augmented(rows_of(matrix@), unknowns as int),
        res matches Err(e) ==> e.0@ == "invalid augmented matrix dimensions"@,
        res matches Ok(s) ==> {
            &&& s.rank <= unknowns
            &&& s.rank <= matrix.len()
            &&& (s.values is Some <==> s.consistent && s.rank == unknowns)
            &&& s.values matches Some(v) ==> v.len() == unknowns && solves(
                rows_of(matrix@),
                fes(v@),
                unknowns as int,
            )
            &&& !s.consistent ==> forall|x: Seq<int>| !#[trigger] solves(rows_of(matrix@), x, unknowns as int)
            &&& has_echelon_form(rows_of(matrix@), unknowns as int, s.rank as int, s.consistent)
        },
{
    let ghost orig = rows_of(matrix@);
    let n = unknowns;
    let mut i: usize = 0;
    while i < matrix.len()
        invariant
            orig == rows_of(matrix@),
            n == unknowns,
            i <= matrix.len(),
            forall|k: int| 0 <= k < i ==> (#[trigger] orig[k]).len() == n + 1,
        decreases matrix.len() - i,
    {
        assert(orig[i as int] == fes(matrix@[i as int]@));
        assert(fes(matrix@[i as int]@).len() == matrix@[i as int]@.len());
        if matrix[i].len() == 0 || matrix[i].len() - 1 != n {
            assert(orig[i as int].len() != n + 1);
            assert(rows_of(matrix@)[i as int].len() != n + 1);
            return Err(Error("invalid augmented matrix dimensions".to_owned()));
        }
        i = i + 1;
    }
    let rows = matrix.len();
    let mut matrix = matrix;
    let mut rank: usize = 0;
    let mut pivots: Vec<usize> = Vec::new();
    let mut column: usize = 0;
    while column < n && rank < rows
        invariant
            matrix.len() == rows,
            augmented(rows_of(matrix@), n as int),
            equivalent(orig, rows_of(matrix@), n as int),
            equivalent(homogeneous(orig, n as int), homogeneous(rows_of(matrix@), n as int), n as int),
            column <= n,
            rank <= column,
            echelon(rows_of(matrix@), pivots@, rank as int, column as int),
        decreases n - column,
    {
        let mut found: usize = rank;
        proof {
            lemma_augmented_lengths(matrix@, n as int);
        }
        while found < rows && matrix[found][column].is_zero()
            invariant
                matrix.len() == rows,
                forall|k: int| 0 <= k < rows ==> (#[trigger] matrix@[k]).len() == n + 1,
                augmented(rows_of(matrix@), n as int),
                column < n,
                rank <= found <= rows,
                forall|k: int| rank <= k < found ==> #[trigger] rows_of(matrix@)[k][column as int] == 0,
            decreases rows - found,
        {
            assert(rows_of(matrix@)[found as int] == fes(matrix@[found as int]@));
            found = found + 1;
        }
        if found < rows {
            assert(rows_of(matrix@)[found as int] == fes(matrix@[found as int]@));
            let ghost before = rows_of(matrix@);
            pivot_step(&mut matrix, n, &pivots, rank, column, found);
            proof {
                assert forall|x: Seq<int>| #[trigger] solves(orig, x, n as int) == solves(rows_of(matrix@), x, n as int) by {
                    assert(solves(orig, x, n as int) == solves(before, x, n as int));
                    assert(solves(before, x, n as int) == solves(rows_of(matrix@), x, n as int));
                }
            }
            pivots.push(column);
            rank = rank + 1;
        }
        column = column + 1;
    }
    let ghost reduced = rows_of(matrix@);
    proof {
        assert(rank == rows || column == n);
    }
    let mut consistent = true;
    let mut i: usize = rank;
    while i < rows
        invariant
            matrix.len() == rows,
            reduced == rows_of(matrix@),
            augmented(reduced, n as int),
            rank <= i <= rows,
            consistent == forall|k: int| rank <= k < i ==> #[trigger] reduced[k][n as int] == 0,
        decreases rows - i,
    {
        assert(reduced[i as int] == fes(matrix@[i as int]@));
        proof {
            lemma_augmented_lengths(matrix@, n as int);
        }
        assert(reduced[i as int][n as int] == matrix@[i as int]@[n as int]@);
        if !matrix[i][n].is_zero() {
            consistent = false;
        }
        i = i + 1;
    }
    proof {
        if !consistent {
            let k = choose|k: int| rank <= k < rows && #[trigger] reduced[k][n as int] != 0;
            assert forall|x: Seq<int>| !#[trigger] solves(orig, x, n as int) by {
                assert(column == n);
                lemma_dot_zero_prefix(reduced[k], x, n as int);
                Fe::lemma_range(matrix@[k]@[n as int]);
                assert(reduced[k][n as int] == matrix@[k]@[n as int]@);
                lemma_small_mod((modulus() - reduced[k][n as int]) as nat, modulus() as nat);
                lemma_mod_add_multiples_vanish(0 - reduced[k][n as int], modulus());
                assert(!holds(reduced[k], x, n as int));
                assert(!solves(reduced, x, n as int));
            }
        }
    }
    let values = if consistent && rank == n {
        proof {
            lemma_increasing_identity(pivots@, n as int);
            assert forall|k: int| 0 <= k < n implies #[trigger] reduced[k][k] == 1 by {
                assert(pivots@[k] == k);
            }
            assert forall|k: int, c: int| 0 <= k < n && 0 <= c < k implies #[trigger] reduced[k][c] == 0 by {
                assert(pivots@[k] == k);
            }
        }
        let x = back_substitute(&matrix, n);
        proof {
            assert forall|k: int| 0 <= k < rows implies holds(#[trigger] reduced[k], fes(x@), n as int) by {
                if k >= n {
                    assert(column == n);
                    lemma_dot_zero_prefix(reduced[k], fes(x@), n as int);
                    assert(reduced[k][n as int] == 0);
                    lemma_small_mod(0, modulus() as nat);
                }
            }
            assert(solves(reduced, fes(x@), n as int));
        }
        Some(x)
    } else {
        None
    };
    proof {
        assert(echelon(reduced, pivots@, rank as int, n as int));
        assert(reduced.len() == matrix.len());
        assert(equivalent(orig, reduced, n as int));
        assert(consistent <==> forall|k: int| rank <= k < reduced.len() ==> #[trigger] reduced[k][n as int] == 0);
        assert(reduced.len() == orig.len());
        assert(echelon_form_of(orig, n as int, rank as int, consistent, reduced, pivots@));
    }
    Ok(LinearSolution { rank, consistent, values })
}

/// How many coefficients of a local polynomial of `r` coefficients stay unknown after
/// `len` received values.
pub open spec fn missing_count(r: int, len: int) -> int {
    if len < r {
        r - len
    } else {
        0
    }
}

/// The unknowns of the first `j` groups.
pub open spec fn unknown_prefix(received: Seq<Vec<(usize, Fe)>>, r: int, j: int) -> int
    decreases j,
{
    if j <= 0 {
        0
    } else {
        unknown_prefix(received, r, j - 1) + missing_count(r, received[j - 1].len() as int)
    }
}

/// Unknown counts grow with the prefix and stay below `r` per group.
proof fn lemma_unknown_prefix(received: Seq<Vec<(usize, Fe)>>, r: int, j: int, j2: int)
    requires
        0 <= j <= j2,
        0 <= r,
    ensures
        0 <= unknown_prefix(received, r, j),
        unknown_prefix(received, r, j) <= unknown_prefix(received, r, j2),
        unknown_prefix(received, r, j2) - unknown_prefix(received, r, j) <= (j2 - j) * r,
    decreases j2,
{
    if j2 > j {
        lemma_unknown_prefix(received, r, j, j2 - 1);
        assert((j2 - 1 - j) * r + r == (j2 - j) * r) by (nonlinear_arith);
    } else if j > 0 {
        lemma_unknown_prefix(received, r, j - 1, j - 1);
    }
}

/// `sum_{t < n} weights[t] locals[t][c]`.
pub open spec fn column_sum(weights: Seq<int>, locals: Seq<Seq<int>>, c: int, n: int) -> int
    decreases n,
{
    if n <= 0 {
        0
    } else {
        column_sum(weights, locals, c, n - 1) + weights[n - 1] * locals[n - 1][c]
    }
}

/// The values of a table of field elements.
pub open spec fn table_of(t: Seq<Vec<Fe>>) -> Seq<Seq<int>> {
    Seq::new(t.len(), |i: int| fes(t[i]@))
}

/// What structured decoding found: the unknown and equation counts, the rank and
/// consistency of the selected system, and the local polynomials where they are fixed.
pub struct Decoded {
    pub unknowns: usize,
    pub equations: usize,
    pub rank: usize,
    pub consistent: bool,
    pub locals: Option<Vec<Vec<Fe>>>,
}

/// One selected equation: coefficient `coefficient` of the relation's combination of the
/// local polynomials, each written as its interpolant plus unknown multiples of its
/// cofactor, with the unknowns of group `j` at `offsets[j]..offsets[j + 1]`.
fn equation_row(
    relation: &[Fe],
    interpolants: &Vec<Vec<Fe>>,
    cofactors: &Vec<Vec<Fe>>,
    offsets: &Vec<usize>,
    coefficient: usize,
    unknowns: usize,
) -> (row: Vec<Fe>)
    requires
        relation.len() == interpolants.len(),
        cofactors.len() == interpolants.len(),
        offsets.len() == interpolants.len() + 1,
        unknowns < usize::MAX,
        offsets@[interpolants.len() as int] == unknowns,
        forall|u: int, v: int| 0 <= u <= v <= interpolants.len() ==> #[trigger] offsets@[u] <= #[trigger] offsets@[v],
        forall|u: int| 0 <= u < interpolants.len() ==> coefficient < (#[trigger] interpolants@[u]).len(),
    ensures
        row.len() == unknowns + 1,
{
    let ell = relation.len();
    let mut row: Vec<Fe> = vec![Fe::zero(); unknowns + 1];
    let mut j: usize = 0;
    while j < ell
        invariant
            ell == relation.len(),
            relation.len() == interpolants.len(),
            cofactors.len() == interpolants.len(),
            offsets.len() == interpolants.len() + 1,
            offsets@[interpolants.len() as int] == unknowns,
            forall|u: int, v: int| 0 <= u <= v <= interpolants.len() ==> #[trigger] offsets@[u] <= #[trigger] offsets@[v],
            forall|u: int| 0 <= u < interpolants.len() ==> coefficient < (#[trigger] interpolants@[u]).len(),
            row.len() == unknowns + 1,
            j <= ell,
        decreases ell - j,
    {
        let weight = relation[j];
        if !weight.is_zero() {
            let rhs = row[unknowns].sub(weight.mul(interpolants[j][coefficient]));
            row.set(unknowns, rhs);
            assert(offsets@[j as int] <= offsets@[j + 1]);
            assert(offsets@[j + 1] <= offsets@[ell as int]);
            let count = offsets[j + 1] - offsets[j];
            let mut d: usize = 0;
            while d < count
                invariant
                    count == offsets@[j + 1] - offsets@[j as int],
                    offsets@[j + 1] <= unknowns,
                    j < cofactors.len(),
                    j + 1 < offsets.len(),
                    row.len() == unknowns + 1,
                    d <= count,
                decreases count - d,
            {
                if coefficient >= d && coefficient - d < cofactors[j].len() {
                    let v = weight.mul(cofactors[j][coefficient - d]);
                    row.set(offsets[j] + d, v);
                }
                d = d + 1;
            }
        }
        j = j + 1;
    }
    row
}

/// Structured recovery of all local polynomials of `layout` from the received pairs of
/// each group, through the top `coefficient_count` coefficients of every parity
/// relation. Where the selected system fixes the unknowns, the reconstruction must agree
/// with all received evidence and satisfy every parity relation in full.
pub fn decode(layout: &Layout, received: &[Vec<(usize, Fe)>], coefficient_count: usize) -> (res: Result<Decoded>)
    requires
        layout.shape_of().ell * (layout.shape_of().r + 1) < usize::MAX,
    ensures
        (res matches Err(e) && e.0@ == "invalid decoder dimensions"@) <==> !(received.len()
            == layout.shape_of().ell && 0 < coefficient_count <= layout.shape_of().r),
        res matches Ok(d) ==> {
            let s = layout.shape_of();
            &&& d.unknowns == unknown_prefix(received@, s.r as int, s.ell as int)
            &&& d.equations == coefficient_count * (s.ell - s.a)
            &&& d.rank <= d.unknowns
            &&& d.rank <= d.equations
            &&& (d.locals is Some <==> d.consistent && d.rank == d.unknowns)
            &&& d.locals matches Some(ls) ==> {
                &&& ls.len() == s.ell
                &&& forall|j: int| 0 <= j < s.ell ==> (#[trigger] ls@[j]).len() == s.r
                &&& forall|j: int, t: int| 0 <= j < s.ell && 0 <= t < received@[j].len() ==> peval(
                    fes(ls@[j]@),
                    layout.point(j, (#[trigger] received@[j]@[t]).0 as int),
                ) == received@[j]@[t].1@
                &&& forall|k: int, c: int| 0 <= k < s.ell - s.a && 0 <= c < s.r ==> #[trigger] column_sum(
                    layout.relation_table()[k],
                    table_of(ls@),
                    c,
                    s.ell as int,
                ) % modulus() == 0
            }
        },
{
    proof {
        use_type_invariant(layout);
        lemma_decode_messages();
    }
    let shape = layout.shape();
    let ell = shape.ell;
    let r = shape.r;
    let a = shape.a;
    if received.len() != ell || coefficient_count == 0 || coefficient_count > r {
        return Err(Error("invalid decoder dimensions".to_owned()));
    }
    let mut interpolants: Vec<Vec<Fe>> = Vec::new();
    let mut cofactors: Vec<Vec<Fe>> = Vec::new();
    let mut offsets: Vec<usize> = vec![0];
    let mut j: usize = 0;
    while j < ell
        invariant
            ell == layout.shape_of().ell,
            r == layout.shape_of().r,
            received.len() == ell,
            0 < coefficient_count <= r,
            ell * (r + 1) < usize::MAX,
            "invalid decoder dimensions"@ != "invalid or duplicate received position"@,
            "invalid decoder dimensions"@ != "zero coset representative"@,
            "invalid decoder dimensions"@ != "received values disagree with the local degree bound"@,
            "invalid decoder dimensions"@ != "polynomial division has a nonzero remainder"@,
            j <= ell,
            interpolants.len() == j,
            cofactors.len() == j,
            offsets.len() == j + 1,
            forall|u: int| 0 <= u <= j ==> #[trigger] offsets@[u] == unknown_prefix(received@, r as int, u),
            forall|u: int| 0 <= u < j ==> (#[trigger] interpolants@[u]).len() == r,
            forall|u: int| 0 <= u < j ==> (#[trigger] cofactors@[u]).len() == min_usize(received@[u].len(), r) + 1,
        decreases ell - j,
    {
        let (interpolant, cofactor) = interpolate(layout, j, &received[j])?;
        let missing = if received[j].len() < r {
            r - received[j].len()
        } else {
            0
        };
        proof {
            lemma_unknown_prefix(received@, r as int, j as int, j as int);
            lemma_unknown_prefix(received@, r as int, 0, j + 1);
            let jj = j + 1;
            let ee = ell as int;
            let rr = r as int;
            assert(jj * rr <= ee * rr) by (nonlinear_arith)
                requires
                    jj <= ee,
                    0 <= rr,
            ;
            assert(ee * (rr + 1) == ee * rr + ee) by (nonlinear_arith);
            assert((j + 1 - 0) * r == jj * rr);
        }
        offsets.push(offsets[j] + missing);
        interpolants.push(interpolant);
        cofactors.push(cofactor);
        j = j + 1;
    }
    let unknowns = offsets[ell];
    proof {
        lemma_unknown_prefix(received@, r as int, 0, ell as int);
        let ee = ell as int;
        let rr = r as int;
        assert(ee * (rr + 1) == ee * rr + ee) by (nonlinear_arith);
        assert((ell - 0) * r == ee * rr);
        assert(unknowns < usize::MAX);
        assert forall|u: int, v: int| 0 <= u <= v <= ell implies #[trigger] offsets@[u] <= #[trigger] offsets@[v] by {
            lemma_unknown_prefix(received@, r as int, u, v);
        }
    }
    let relation_count = ell - a;
    let mut matrix: Vec<Vec<Fe>> = Vec::new();
    let mut k: usize = 0;
    while k < relation_count
        invariant
            relation_count == ell - a,
            a <= ell,
            ell == layout.shape_of().ell,
            layout.relations.len() == relation_count,
            forall|q: int| 0 <= q < layout.relations.len() ==> (#[trigger] layout.relations@[q]).len() == ell,
            0 < coefficient_count <= r,
            ell * (r + 1) < usize::MAX,
            interpolants.len() == ell,
            cofactors.len() == ell,
            offsets.len() == ell + 1,
            offsets@[ell as int] == unknowns,
            unknowns <= ell * r,
            unknowns < usize::MAX,
            forall|u: int, v: int| 0 <= u <= v <= ell ==> #[trigger] offsets@[u] <= #[trigger] offsets@[v],
            forall|u: int| 0 <= u < ell ==> (#[trigger] interpolants@[u]).len() == r,
            k <= relation_count,
            matrix.len() == k * coefficient_count,
            forall|q: int| 0 <= q < matrix.len() ==> (#[trigger] matrix@[q]).len() == unknowns + 1,
        decreases relation_count - k,
    {
        let mut coefficient: usize = r;
        while coefficient > r - coefficient_count
            invariant
                r - coefficient_count <= coefficient <= r,
                0 < coefficient_count <= r,
                ell * (r + 1) < usize::MAX,
                k < relation_count,
                layout.relations.len() == relation_count,
                forall|q: int| 0 <= q < layout.relations.len() ==> (#[trigger] layout.relations@[q]).len() == ell,
                interpolants.len() == ell,
                cofactors.len() == ell,
                offsets.len() == ell + 1,
                offsets@[ell as int] == unknowns,
                unknowns <= ell * r,
                unknowns < usize::MAX,
                forall|u: int, v: int| 0 <= u <= v <= ell ==> #[trigger] offsets@[u] <= #[trigger] offsets@[v],
                forall|u: int| 0 <= u < ell ==> (#[trigger] interpolants@[u]).len() == r,
                matrix.len() == k * coefficient_count + (r - coefficient),
                forall|q: int| 0 <= q < matrix.len() ==> (#[trigger] matrix@[q]).len() == unknowns + 1,
            decreases coefficient,
        {
            coefficient = coefficient - 1;
            let row = equation_row(&layout.relations[k], &interpolants, &cofactors, &offsets, coefficient, unknowns);
            matrix.push(row);
        }
        proof {
            assert((k + 1) * coefficient_count == k * coefficient_count + coefficient_count) by (nonlinear_arith);
        }
        k = k + 1;
    }
    let equations = matrix.len();
    proof {
        let cc = coefficient_count as int;
        let nrel = relation_count as int;
        assert(nrel * cc == cc * nrel) by (nonlinear_arith);
        assert(equations == coefficient_count * (ell - a));
        assert(rows_of(matrix@).len() == matrix.len());
        assert forall|q: int| 0 <= q < rows_of(matrix@).len() implies (#[trigger] rows_of(matrix@)[q]).len() == unknowns + 1 by {
            assert(rows_of(matrix@)[q] == fes(matrix@[q]@));
        }
        let cc = coefficient_count as int;
        let rr = r as int;
        let nrel = relation_count as int;
        let ee = ell as int;
        assert(nrel * cc <= nrel * rr) by (nonlinear_arith)
            requires
                cc <= rr,
                0 <= nrel,
        ;
    }
    let solution = match solve(matrix, unknowns) {
        Ok(s) => s,
        Err(e) => {
            return Err(e);
        },
    };
    let ghost p = modulus();
    let locals = match solution.values {
        Some(values) => {
            let mut locals: Vec<Vec<Fe>> = Vec::new();
            let mut j: usize = 0;
            while j < ell
                invariant
                    p == modulus(),
                    ell == layout.shape_of().ell,
                    r == layout.shape_of().r,
                    j < layout.shape_of().ell ==> j < layout.shape_of().ell,
                    received.len() == ell,
                    interpolants.len() == ell,
                    cofactors.len() == ell,
                    offsets.len() == ell + 1,
                    offsets@[ell as int] == unknowns,
                    values.len() == unknowns,
                    forall|u: int| 0 <= u <= ell ==> #[trigger] offsets@[u] == unknown_prefix(received@, r as int, u),
                    forall|u: int| 0 <= u < ell ==> (#[trigger] interpolants@[u]).len() == r,
                    forall|u: int| 0 <= u < ell ==> (#[trigger] cofactors@[u]).len() == min_usize(received@[u].len(), r) + 1,
                    "invalid decoder dimensions"@ != "reconstructed polynomial disagrees with received evidence"@,
                    0 < coefficient_count <= r,
                    j <= ell,
                    locals.len() == j,
                    forall|u: int| 0 <= u < j ==> (#[trigger] locals@[u]).len() == r,
                    forall|u: int, t: int| 0 <= u < j && 0 <= t < received@[u].len() ==> peval(
                        fes(locals@[u]@),
                        layout.point(u, (#[trigger] received@[u]@[t]).0 as int),
                    ) == received@[u]@[t].1@,
                decreases ell - j,
            {
                let mut local = copy_elements(&interpolants[j]);
                assert(offsets@[j + 1] == offsets@[j as int] + missing_count(r as int, received@[j as int].len() as int));
                proof {
                    lemma_unknown_prefix(received@, r as int, j + 1, ell as int);
                }
                let count = offsets[j + 1] - offsets[j];
                let mut d: usize = 0;
                while d < count
                    invariant
                        count == missing_count(r as int, received@[j as int].len() as int),
                        j < ell,
                        cofactors.len() == ell,
                        cofactors@[j as int].len() == min_usize(received@[j as int].len(), r) + 1,
                        offsets.len() == ell + 1,
                        offsets@[j as int] + count <= unknowns,
                        values.len() == unknowns,
                        local.len() == r,
                        d <= count,
                    decreases count - d,
                {
                    let w = values[offsets[j] + d];
                    let mut i: usize = 0;
                    while i < cofactors[j].len()
                        invariant
                            count == missing_count(r as int, received@[j as int].len() as int),
                            d < count,
                            j < cofactors.len(),
                            cofactors@[j as int].len() == min_usize(received@[j as int].len(), r) + 1,
                            local.len() == r,
                            i <= cofactors@[j as int].len(),
                        decreases cofactors@[j as int].len() - i,
                    {
                        let v = local[i + d].add(w.mul(cofactors[j][i]));
                        local.set(i + d, v);
                        i = i + 1;
                    }
                    d = d + 1;
                }
                let mut t: usize = 0;
                while t < received[j].len()
                    invariant
                        j < ell,
                        ell == layout.shape_of().ell,
                        received.len() == ell,
                        t <= received@[j as int].len(),
                        forall|q: int| 0 <= q < t ==> peval(
                            fes(local@),
                            layout.point(j as int, (#[trigger] received@[j as int]@[q]).0 as int),
                        ) == received@[j as int]@[q].1@,
                        "invalid decoder dimensions"@ != "reconstructed polynomial disagrees with received evidence"@,
                        received.len() == ell,
                        0 < coefficient_count <= r,
                        r == layout.shape_of().r,
                    decreases received@[j as int].len() - t,
                {
                    let (index, value) = received[j][t];
                    let x = layout.point_at(j, index);
                    let v = evaluate(&local, x);
                    if v != value {
                        return Err(Error("reconstructed polynomial disagrees with received evidence".to_owned()));
                    }
                    t = t + 1;
                }
                locals.push(local);
                j = j + 1;
            }
            let mut k: usize = 0;
            while k < relation_count
                invariant
                    p == modulus(),
                    relation_count == ell - a,
                    ell == layout.shape_of().ell,
                    r == layout.shape_of().r,
                    layout.relations.len() == relation_count,
                    forall|q: int| 0 <= q < layout.relations.len() ==> (#[trigger] layout.relations@[q]).len() == ell,
                    locals.len() == ell,
                    forall|u: int| 0 <= u < ell ==> (#[trigger] locals@[u]).len() == r,
                    "invalid decoder dimensions"@ != "reconstructed polynomials violate an unselected outer equation"@,
                    received.len() == ell,
                    0 < coefficient_count <= r,
                    k <= relation_count,
                    forall|q: int, c: int| 0 <= q < k && 0 <= c < r ==> #[trigger] column_sum(
                        layout.relation_table()[q],
                        table_of(locals@),
                        c,
                        ell as int,
                    ) % p == 0,
                decreases relation_count - k,
            {
                let mut c: usize = 0;
                while c < r
                    invariant
                        p == modulus(),
                        k < relation_count,
                        ell == layout.shape_of().ell,
                        r == layout.shape_of().r,
                        relation_count == ell - a,
                        layout.relations.len() == relation_count,
                        forall|q: int| 0 <= q < layout.relations.len() ==> (#[trigger] layout.relations@[q]).len() == ell,
                        locals.len() == ell,
                        forall|u: int| 0 <= u < ell ==> (#[trigger] locals@[u]).len() == r,
                        "invalid decoder dimensions"@ != "reconstructed polynomials violate an unselected outer equation"@,
                        received.len() == ell,
                        0 < coefficient_count <= r,
                        c <= r,
                        forall|q: int, cc: int| 0 <= q < k && 0 <= cc < r ==> #[trigger] column_sum(
                            layout.relation_table()[q],
                            table_of(locals@),
                            cc,
                            ell as int,
                        ) % p == 0,
                        forall|cc: int| 0 <= cc < c ==> #[trigger] column_sum(
                            layout.relation_table()[k as int],
                            table_of(locals@),
                            cc,
                            ell as int,
                        ) % p == 0,
                    decreases r - c,
                {
                    let ghost weights = layout.relation_table()[k as int];
                    assert(weights == fes(layout.relations@[k as int]@));
                    let mut acc = Fe::zero();
                    let mut u: usize = 0;
                    proof {
                        lemma_small_mod(0, p as nat);
                    }
                    while u < ell
                        invariant
                            p == modulus(),
                            k < layout.relations.len(),
                            layout.relations@[k as int].len() == ell,
                            weights == fes(layout.relations@[k as int]@),
                            locals.len() == ell,
                            forall|v: int| 0 <= v < ell ==> (#[trigger] locals@[v]).len() == r,
                            c < r,
                            u <= ell,
                            acc@ == column_sum(weights, table_of(locals@), c as int, u as int) % p,
                        decreases ell - u,
                    {
                        let term = layout.relations[k][u].mul(locals[u][c]);
                        proof {
                            assert(table_of(locals@)[u as int] == fes(locals@[u as int]@));
                            lemma_add_mod_noop(
                                column_sum(weights, table_of(locals@), c as int, u as int),
                                weights[u as int] * table_of(locals@)[u as int][c as int],
                                p,
                            );
                            lemma_mod_twice(column_sum(weights, table_of(locals@), c as int, u as int), p);
                            lemma_mod_twice(weights[u as int] * table_of(locals@)[u as int][c as int], p);
                        }
                        acc = acc.add(term);
                        u = u + 1;
                    }
                    if !acc.is_zero() {
                        return Err(Error("reconstructed polynomials violate an unselected outer equation".to_owned()));
                    }
                    c = c + 1;
                }
                k = k + 1;
            }
            Some(locals)
        },
        None => None,
    };
    assert(unknowns == unknown_prefix(received@, r as int, ell as int));
    assert(solution.rank <= equations);
    Ok(Decoded { unknowns, equations, rank: solution.rank, consistent: solution.consistent, locals })
}

/// The decoding messages are different texts.
proof fn lemma_decode_messages()
    ensures
        "invalid decoder dimensions"@ != "invalid or duplicate received position"@,
        "invalid decoder dimensions"@ != "zero coset representative"@,
        "invalid decoder dimensions"@ != "received values disagree with the local degree bound"@,
        "invalid decoder dimensions"@ != "polynomial division has a nonzero remainder"@,
        "invalid decoder dimensions"@ != "reconstructed polynomial disagrees with received evidence"@,
        "invalid decoder dimensions"@ != "reconstructed polynomials violate an unselected outer equation"@,
{
    reveal_strlit("invalid decoder dimensions");
    reveal_strlit("invalid or duplicate received position");
    reveal_strlit("zero coset representative");
    reveal_strlit("received values disagree with the local degree bound");
    reveal_strlit("polynomial division has a nonzero remainder");
    reveal_strlit("reconstructed polynomial disagrees with received evidence");
    reveal_strlit("reconstructed polynomials violate an unselected outer equation");
    assert("invalid decoder dimensions"@[8] != "invalid or duplicate received position"@[8]);
    assert("invalid decoder dimensions"@[0] != "zero coset representative"@[0]);
    assert("invalid decoder dimensions"@[0] != "received values disagree with the local degree bound"@[0]);
    assert("invalid decoder dimensions"@[0] != "polynomial division has a nonzero remainder"@[0]);
    assert("invalid decoder dimensions"@[0] != "reconstructed polynomial disagrees with received evidence"@[0]);
    assert("invalid decoder dimensions"@[0] != "reconstructed polynomials violate an unselected outer equation"@[0]);
}

/// Random local polynomials of a codeword: `r` outer polynomials of `a` coefficients
/// each, drawn from the labelled stream, evaluated at every group's outer label.
pub fn random_locals(layout: &Layout, seed: u64, label: &str) -> (locals: Vec<Vec<Fe>>)
    ensures
        locals.len() == layout.shape_of().ell,
        exists|outer: Seq<Seq<int>>| #[trigger] evaluations_of(locals@, outer, *layout),
{
    proof {
        use_type_invariant(layout);
    }
    let shape = layout.shape();
    let mut stream = rng(seed, label);
    let mut outer: Vec<Vec<Fe>> = Vec::new();
    let mut c: usize = 0;
    while c < shape.r
        invariant
            c <= shape.r,
            outer.len() == c,
            forall|u: int| 0 <= u < c ==> (#[trigger] outer@[u]).len() == shape.a,
        decreases shape.r - c,
    {
        let mut poly: Vec<Fe> = Vec::new();
        let mut t: usize = 0;
        while t < shape.a
            invariant
                t <= shape.a,
                poly.len() == t,
            decreases shape.a - t,
        {
            poly.push(draw_scalar(&mut stream));
            t = t + 1;
        }
        outer.push(poly);
        c = c + 1;
    }
    let ghost outer_values = table_of(outer@);
    let mut locals: Vec<Vec<Fe>> = Vec::new();
    let mut j: usize = 0;
    while j < shape.ell
        invariant
            shape == layout.shape_of(),
            layout.labels().len() == shape.ell,
            layout.gammas.len() == shape.ell,
            layout.labels() == fes(layout.gammas@),
            outer.len() == shape.r,
            outer_values == table_of(outer@),
            j <= shape.ell,
            locals.len() == j,
            forall|u: int| 0 <= u < j ==> {
                &&& (#[trigger] locals@[u]).len() == shape.r
                &&& forall|c: int| 0 <= c < shape.r ==> #[trigger] locals@[u]@[c]@ == peval(outer_values[c], layout.labels()[u])
            },
        decreases shape.ell - j,
    {
        let gamma = layout.gammas[j];
        let mut row: Vec<Fe> = Vec::new();
        let mut c: usize = 0;
        while c < shape.r
            invariant
                outer.len() == shape.r,
                outer_values == table_of(outer@),
                gamma@ == layout.labels()[j as int],
                c <= shape.r,
                row.len() == c,
                forall|u: int| 0 <= u < c ==> #[trigger] row@[u]@ == peval(outer_values[u], gamma@),
            decreases shape.r - c,
        {
            assert(outer_values[c as int] == fes(outer@[c as int]@));
            row.push(evaluate(&outer[c], gamma));
            c = c + 1;
        }
        locals.push(row);
        j = j + 1;
    }
    proof {
        assert forall|c: int| 0 <= c < shape.r implies (#[trigger] outer_values[c]).len() == shape.a by {
            assert(outer_values[c] == fes(outer@[c]@));
        }
        assert(evaluations_of(locals@, outer_values, *layout));
    }
    locals
}

/// `locals` holds, for every group, the values of the `r` outer polynomials of `a`
/// coefficients at the group's outer label.
pub open spec fn evaluations_of(locals: Seq<Vec<Fe>>, outer: Seq<Seq<int>>, l: Layout) -> bool {
    &&& outer.len() == l.shape_of().r
    &&& forall|c: int| 0 <= c < l.shape_of().r ==> (#[trigger] outer[c]).len() == l.shape_of().a
    &&& forall|j: int| 0 <= j < l.shape_of().ell ==> {
        &&& (#[trigger] locals[j]).len() == l.shape_of().r
        &&& forall|c: int| 0 <= c < l.shape_of().r ==> #[trigger] locals[j]@[c]@ == peval(outer[c], l.labels()[j])
    }
}

/// Positions `0..n` of group `j` that the diagonal erasure pattern keeps, in order.
pub open spec fn diagonal_kept(v: ParamsView, j: int, n: int) -> Seq<usize>
    decreases n,
{
    if n <= 0 {
        Seq::empty()
    } else if diagonal_erased(v, j, n - 1) {
        diagonal_kept(v, j, n - 1)
    } else {
        diagonal_kept(v, j, n - 1).push((n - 1) as usize)
    }
}

/// The surviving positions of every group under the diagonal erasure pattern of the
/// dimensions `shape` (with no residual coordinates).
pub fn proposition_pattern(shape: Shape) -> (res: Result<Vec<Vec<usize>>>)
    ensures
        res is Ok <==> ({
            let v = crate::domain::view_of(shape.ell, shape.m, shape.r, shape.a, 0);
            v.valid() && diagonal_applies(v)
        }),
        res matches Ok(pattern) ==> {
            let v = crate::domain::view_of(shape.ell, shape.m, shape.r, shape.a, 0);
            &&& pattern.len() == shape.ell
            &&& forall|j: int| 0 <= j < shape.ell ==> (#[trigger] pattern@[j])@ == diagonal_kept(v, j, shape.m as int)
        },
{
    let params = Params::new(shape.ell, shape.m, shape.r, shape.a, 0)?;
    let ghost v = params@;
    proof {
        crate::domain::lemma_valid_bounds(v);
    }
    let mut pattern: Vec<Vec<usize>> = Vec::new();
    let mut j: usize = 0;
    while j < shape.ell
        invariant
            v == params@,
            v == crate::domain::view_of(shape.ell, shape.m, shape.r, shape.a, 0),
            v.valid(),
            shape.m >= 1,
            j > 0 ==> diagonal_applies(v),
            j <= shape.ell,
            pattern.len() == j,
            forall|u: int| 0 <= u < j ==> (#[trigger] pattern@[u])@ == diagonal_kept(v, u, shape.m as int),
        decreases shape.ell - j,
    {
        let mut kept: Vec<usize> = Vec::new();
        let mut i: usize = 0;
        while i < shape.m
            invariant
                v == params@,
                v == crate::domain::view_of(shape.ell, shape.m, shape.r, shape.a, 0),
                j < shape.ell,
                i <= shape.m,
                i > 0 ==> diagonal_applies(v),
                kept@ == diagonal_kept(v, j as int, i as int),
            decreases shape.m - i,
        {
            match erased(params, j, i) {
                Ok(false) => {
                    kept.push(i);
                },
                Ok(true) => {},
                Err(e) => {
                    return Err(e);
                },
            }
            i = i + 1;
        }
        pattern.push(kept);
        j = j + 1;
    }
    Ok(pattern)
}

/// The entries of `v` never decrease.
pub open spec fn ascending(v: Seq<usize>) -> bool {
    forall|x: int, y: int| 0 <= x < y < v.len() ==> v[x] <= v[y]
}

/// Sort positions in place, keeping their length and their bound.
fn sort_positions(v: &mut Vec<usize>, bound: usize)
    requires
        forall|x: int| 0 <= x < old(v).len() ==> #[trigger] old(v)@[x] < bound,
    ensures
        final(v).len() == old(v).len(),
        ascending(final(v)@),
        forall|x: int| 0 <= x < final(v).len() ==> #[trigger] final(v)@[x] < bound,
        final(v)@.to_multiset() == old(v)@.to_multiset(),
{
    let ghost orig = v@;
    let n = v.len();
    if n == 0 {
        return;
    }
    let mut i: usize = 1;
    while i < n
        invariant
            v.len() == n,
            1 <= i <= n,
            forall|x: int| 0 <= x < n ==> #[trigger] v@[x] < bound,
            forall|x: int, y: int| 0 <= x < y < i ==> v@[x] <= v@[y],
            v@.to_multiset() == orig.to_multiset(),
        decreases n - i,
    {
        let mut j: usize = i;
        while j > 0 && v[j - 1] > v[j]
            invariant
                v.len() == n,
                i < n,
                j <= i,
                forall|x: int| 0 <= x < n ==> #[trigger] v@[x] < bound,
                forall|x: int, y: int| 0 <= x < y <= i && x != j && y != j ==> v@[x] <= v@[y],
                forall|y: int| j < y <= i ==> v@[j as int] <= #[trigger] v@[y],
                v@.to_multiset() == orig.to_multiset(),
            decreases j,
        {
            let lo = v[j - 1];
            let hi = v[j];
            let ghost s0 = v@;
            v.set(j - 1, hi);
            v.set(j, lo);
            proof {
                broadcast use vstd::seq_lib::group_to_multiset_ensures;
                broadcast use vstd::multiset::group_multiset_axioms;
                let s1 = s0.update(j - 1, hi);
                assert(v@ == s1.update(j as int, lo));
                assert(s1[j as int] == hi);
                assert(s0.to_multiset().contains(lo));
                assert(v@.to_multiset() =~= s0.to_multiset());
            }
            j = j - 1;
        }
        i = i + 1;
    }
}

/// Sum of the lengths of the first `n` groups.
pub open spec fn groups_size(groups: Seq<Vec<usize>>, n: int) -> int
    decreases n,
{
    if n <= 0 {
        0
    } else {
        groups_size(groups, n - 1) + groups[n - 1].len()
    }
}

/// `order` lists every position `0..n` exactly once.
pub open spec fn is_ordering(order: Seq<usize>, n: int) -> bool {
    &&& order.len() == n
    &&& order.no_duplicates()
    &&& forall|x: int| 0 <= x < n ==> #[trigger] order[x] < n
}

/// The entries of `v` increase strictly.
pub open spec fn strictly_ascending(v: Seq<usize>) -> bool {
    forall|x: int, y: int| 0 <= x < y < v.len() ==> v[x] < v[y]
}

/// Index `i` survives in group `j` exactly when position `j m + i` is among the first
/// `kept` entries of `order`.
pub open spec fn survivors_follow(groups: Seq<Vec<usize>>, order: Seq<usize>, m: int, ell: int, kept: int) -> bool {
    forall|j: int, i: usize|
        0 <= j < ell && i < m ==> (#[trigger] groups[j]@.contains(i) <==> exists|t: int|
            0 <= t < kept && order[t] == j * m + i)
}

/// Position `p` of the `m`-wide grid is `(p / m) m + p % m`, and that split is unique.
proof fn lemma_grid_split(p: int, m: int, j: int, i: int)
    requires
        m > 0,
        p >= 0,
        0 <= i < m,
        j >= 0,
    ensures
        p == (p / m) * m + p % m,
        0 <= p % m < m,
        (j * m + i == p) <==> (j == p / m && i == p % m),
{
    vstd::arithmetic::div_mod::lemma_fundamental_div_mod(p, m);
    assert(m * (p / m) == (p / m) * m) by (nonlinear_arith);
    if j * m + i == p {
        vstd::arithmetic::div_mod::lemma_fundamental_div_mod_converse(p, m, j, i);
    }
}

/// `kept` of the `m ell` positions, a uniformly random choice from the labelled stream of
/// `seed`, sorted within each group.
pub fn random_pattern(shape: Shape, kept: usize, seed: u64) -> (groups: Vec<Vec<usize>>)
    requires
        shape.m * shape.ell <= usize::MAX,
        kept <= shape.m * shape.ell,
    ensures
        groups.len() == shape.ell,
        groups_size(groups@, shape.ell as int) == kept,
        forall|j: int| 0 <= j < shape.ell ==> ascending(#[trigger] groups@[j]@),
        forall|j: int, x: int| 0 <= j < shape.ell && 0 <= x < groups@[j].len() ==> #[trigger] groups@[j]@[x] < shape.m,
        forall|j: int| 0 <= j < shape.ell ==> strictly_ascending(#[trigger] groups@[j]@),
        exists|order: Seq<usize>|
            #[trigger] is_ordering(order, shape.m * shape.ell) && survivors_follow(
                groups@,
                order,
                shape.m as int,
                shape.ell as int,
                kept as int,
            ),
{
    let mut label: Vec<u8> = Vec::new();
    push_bytes(&mut label, "table8-survivors-".as_bytes());
    push_decimal(&mut label, kept);
    let mut stream_rng = stream(seed, &label);
    let total = shape.m * shape.ell;
    let mut positions: Vec<usize> = Vec::new();
    let mut t: usize = 0;
    while t < total
        invariant
            t <= total,
            positions.len() == t,
            forall|x: int| 0 <= x < t ==> #[trigger] positions@[x] == x,
        decreases total - t,
    {
        positions.push(t);
        t = t + 1;
    }
    let ghost before = positions@;
    shuffle(&mut positions, &mut stream_rng);
    proof {
        broadcast use vstd::seq_lib::group_to_multiset_ensures;
        assert forall|x: int| 0 <= x < positions.len() implies #[trigger] positions@[x] < total by {
            assert(positions@.to_multiset().count(positions@[x]) > 0);
            assert(before.to_multiset().contains(positions@[x]));
            assert(before.contains(positions@[x]));
        }
        assert(before.no_duplicates());
        before.lemma_multiset_has_no_duplicates();
        positions@.lemma_multiset_has_no_duplicates_conv();
    }
    let ghost order = positions@;
    let mut groups: Vec<Vec<usize>> = Vec::new();
    let mut j: usize = 0;
    while j < shape.ell
        invariant
            j <= shape.ell,
            groups.len() == j,
            forall|u: int| 0 <= u < j ==> (#[trigger] groups@[u]).len() == 0,
        decreases shape.ell - j,
    {
        groups.push(Vec::new());
        j = j + 1;
    }
    proof {
        assert(groups_size(groups@, shape.ell as int) == 0) by {
            lemma_groups_size_zero(groups@, shape.ell as int);
        }
        assert forall|j: int, i: usize| 0 <= j < shape.ell && i < shape.m implies (#[trigger] groups@[j]@.contains(i)
            <==> exists|t: int| 0 <= t < 0 && order[t] == j * shape.m + i) by {
            assert(groups@[j].len() == 0);
        }
    }
    let mut t: usize = 0;
    while t < kept
        invariant
            kept <= total,
            total == shape.m * shape.ell,
            positions@ == order,
            is_ordering(order, total as int),
            groups.len() == shape.ell,
            t <= kept,
            groups_size(groups@, shape.ell as int) == t,
            forall|u: int, x: int| 0 <= u < shape.ell && 0 <= x < groups@[u].len() ==> #[trigger] groups@[u]@[x] < shape.m,
            forall|u: int| 0 <= u < shape.ell ==> (#[trigger] groups@[u])@.no_duplicates(),
            survivors_follow(groups@, order, shape.m as int, shape.ell as int, t as int),
        decreases kept - t,
    {
        let position = positions[t];
        let group = position / shape.m;
        let index = position % shape.m;
        proof {
            let mm = shape.m as int;
            let ee = shape.ell as int;
            let pp = position as int;
            assert(pp / mm < ee) by (nonlinear_arith)
                requires
                    0 <= pp < mm * ee,
                    mm > 0,
            ;
            lemma_grid_split(pp, mm, 0, 0);
        }
        let mut members = copy_positions(&groups[group]);
        let ghost before_members = members@;
        members.push(index);
        let ghost old_groups = groups@;
        groups.set(group, members);
        proof {
            lemma_groups_size_update(old_groups, shape.ell as int, group as int, groups@[group as int]);
            assert(groups@ == old_groups.update(group as int, groups@[group as int]));
            let mm = shape.m as int;
            let tt = t as int;
            assert(!before_members.contains(index)) by {
                lemma_grid_split(position as int, mm, group as int, index as int);
                assert(old_groups[group as int]@.contains(index) <==> exists|x: int| 0 <= x < tt && order[x] == group as int * mm + index);
                if exists|x: int| 0 <= x < tt && order[x] == group as int * mm + index {
                    let x = choose|x: int| 0 <= x < tt && order[x] == group as int * mm + index;
                    assert(order[x] == order[tt]);
                }
            }
            let s2 = before_members.push(index);
            assert forall|i: usize| #[trigger] s2.contains(i) <==> (before_members.contains(i) || i == index) by {
                if s2.contains(i) {
                    let k = choose|k: int| 0 <= k < s2.len() && s2[k] == i;
                    if k < before_members.len() {
                        assert(before_members[k] == i);
                    }
                }
                if before_members.contains(i) {
                    let k = choose|k: int| 0 <= k < before_members.len() && before_members[k] == i;
                    assert(s2[k] == i);
                }
                if i == index {
                    assert(s2[before_members.len() as int] == index);
                }
            }
            assert forall|j: int, i: usize| 0 <= j < shape.ell && i < shape.m implies (#[trigger] groups@[j]@.contains(i)
                <==> exists|x: int| 0 <= x < tt + 1 && order[x] == j * mm + i) by {
                lemma_grid_split(position as int, mm, j, i as int);
                assert(old_groups[j]@.contains(i) <==> exists|x: int| 0 <= x < tt && order[x] == j * mm + i);
                if exists|x: int| 0 <= x < tt + 1 && order[x] == j * mm + i {
                    let x = choose|x: int| 0 <= x < tt + 1 && order[x] == j * mm + i;
                    if x < tt {
                        assert(exists|y: int| 0 <= y < tt && order[y] == j * mm + i);
                    }
                }
                if exists|x: int| 0 <= x < tt && order[x] == j * mm + i {
                    let x = choose|x: int| 0 <= x < tt && order[x] == j * mm + i;
                    assert(0 <= x < tt + 1 && order[x] == j * mm + i);
                }
                if j == group as int && i == index {
                    assert(order[tt] == j * mm + i);
                }
                if j == group as int {
                    assert(groups@[j]@ == s2);
                } else {
                    assert(groups@[j] == old_groups[j]);
                }
            }
            assert forall|u: int| 0 <= u < shape.ell implies (#[trigger] groups@[u])@.no_duplicates() by {
                if u != group as int {
                    assert(groups@[u] == old_groups[u]);
                } else {
                    assert(groups@[u]@ == before_members.push(index));
                }
            }
        }
        t = t + 1;
    }
    let mut j: usize = 0;
    while j < shape.ell
        invariant
            groups.len() == shape.ell,
            j <= shape.ell,
            groups_size(groups@, shape.ell as int) == kept,
            forall|u: int, x: int| 0 <= u < shape.ell && 0 <= x < groups@[u].len() ==> #[trigger] groups@[u]@[x] < shape.m,
            forall|u: int| 0 <= u < j ==> ascending(#[trigger] groups@[u]@),
            forall|u: int| 0 <= u < j ==> strictly_ascending(#[trigger] groups@[u]@),
            forall|u: int| 0 <= u < shape.ell ==> (#[trigger] groups@[u])@.no_duplicates(),
            is_ordering(order, (shape.m * shape.ell) as int),
            survivors_follow(groups@, order, shape.m as int, shape.ell as int, kept as int),
        decreases shape.ell - j,
    {
        let mut members = copy_positions(&groups[j]);
        let ghost unsorted = members@;
        sort_positions(&mut members, shape.m);
        let ghost old_groups = groups@;
        groups.set(j, members);
        proof {
            broadcast use vstd::seq_lib::group_to_multiset_ensures;
            lemma_groups_size_update(old_groups, shape.ell as int, j as int, groups@[j as int]);
            assert(groups@ == old_groups.update(j as int, groups@[j as int]));
            let sorted = groups@[j as int]@;
            assert(sorted.to_multiset() == unsorted.to_multiset());
            assert(unsorted.no_duplicates());
            unsorted.lemma_multiset_has_no_duplicates();
            sorted.lemma_multiset_has_no_duplicates_conv();
            assert forall|x: usize| #[trigger] sorted.contains(x) <==> unsorted.contains(x) by {
                assert(sorted.to_multiset().contains(x) <==> unsorted.to_multiset().contains(x));
            }
            assert forall|x: int, y: int| 0 <= x < y < sorted.len() implies sorted[x] < sorted[y] by {
                assert(sorted[x] <= sorted[y]);
                assert(sorted[x] != sorted[y]);
            }
            assert forall|u: int| 0 <= u < shape.ell implies (#[trigger] groups@[u])@.no_duplicates() by {
                if u != j as int {
                    assert(groups@[u] == old_groups[u]);
                }
            }
            assert forall|jj: int, i: usize| 0 <= jj < shape.ell && i < shape.m implies (#[trigger] groups@[jj]@.contains(i)
                <==> exists|x: int| 0 <= x < kept && order[x] == jj * shape.m + i) by {
                assert(old_groups[jj]@.contains(i) <==> exists|x: int| 0 <= x < kept && order[x] == jj * shape.m + i);
                if jj != j as int {
                    assert(groups@[jj] == old_groups[jj]);
                }
            }
        }
        j = j + 1;
    }
    proof {
        assert(is_ordering(order, shape.m * shape.ell));
    }
    groups
}

/// A copy of a list of positions.
fn copy_positions(v: &Vec<usize>) -> (out: Vec<usize>)
    ensures
        out@ == v@,
{
    let mut out: Vec<usize> = Vec::new();
    let mut i: usize = 0;
    while i < v.len()
        invariant
            i <= v.len(),
            out@ == v@.take(i as int),
        decreases v.len() - i,
    {
        out.push(v[i]);
        i = i + 1;
        assert(out@ == v@.take(i as int));
    }
    assert(v@.take(v.len() as int) == v@);
    out
}

/// Empty groups hold nothing.
proof fn lemma_groups_size_zero(groups: Seq<Vec<usize>>, n: int)
    requires
        0 <= n <= groups.len(),
        forall|u: int| 0 <= u < n ==> (#[trigger] groups[u]).len() == 0,
    ensures
        groups_size(groups, n) == 0,
    decreases n,
{
    if n > 0 {
        lemma_groups_size_zero(groups, n - 1);
    }
}

/// Replacing one group changes the total by the difference of its lengths.
proof fn lemma_groups_size_update(groups: Seq<Vec<usize>>, n: int, g: int, v: Vec<usize>)
    requires
        0 <= g < n <= groups.len(),
    ensures
        groups_size(groups.update(g, v), n) == groups_size(groups, n) - groups[g].len() + v.len(),
    decreases n,
{
    if n - 1 > g {
        lemma_groups_size_update(groups, n - 1, g, v);
    } else {
        assert forall|u: int| 0 <= u < n - 1 implies groups.update(g, v)[u] == groups[u] by {}
        lemma_groups_size_same(groups, groups.update(g, v), n - 1);
    }
}

/// Groups that agree on a prefix have the same size there.
proof fn lemma_groups_size_same(a: Seq<Vec<usize>>, b: Seq<Vec<usize>>, n: int)
    requires
        0 <= n <= a.len(),
        n <= b.len(),
        forall|u: int| 0 <= u < n ==> a[u] == b[u],
    ensures
        groups_size(a, n) == groups_size(b, n),
    decreases n,
{
    if n > 0 {
        lemma_groups_size_same(a, b, n - 1);
    }
}

/// The unknowns that a pattern leaves: `r` less the kept count, where positive, summed
/// over the first `n` groups.
pub open spec fn pattern_unknowns(pattern: Seq<Vec<usize>>, r: int, n: int) -> int
    decreases n,
{
    if n <= 0 {
        0
    } else {
        pattern_unknowns(pattern, r, n - 1) + missing_count(r, pattern[n - 1].len() as int)
    }
}

/// Equal group sizes leave equal unknown counts.
proof fn lemma_pattern_unknowns(pattern: Seq<Vec<usize>>, received: Seq<Vec<(usize, Fe)>>, r: int, n: int)
    requires
        0 <= n <= pattern.len(),
        n <= received.len(),
        forall|j: int| 0 <= j < n ==> (#[trigger] pattern[j]).len() == received[j].len(),
    ensures
        pattern_unknowns(pattern, r, n) == unknown_prefix(received, r, n),
    decreases n,
{
    if n > 0 {
        lemma_pattern_unknowns(pattern, received, r, n - 1);
        assert(pattern[n - 1].len() == received[n - 1].len());
    }
}

/// The report of one recovery case.
#[derive(Clone, Copy, Debug, PartialEq, Eq, Structural)]
pub struct CaseReport {
    pub unknowns: usize,
    pub equations: usize,
    pub rank: usize,
    pub consistent: bool,
    pub local_polynomials_exact: bool,
    pub full_codeword_exact: bool,
    pub leading_coefficients_exact: bool,
}

/// The decimal digits of `n` as text.
pub open spec fn decimal_text(n: nat) -> Seq<char>
    decreases n,
{
    if n < 10 {
        seq![((48 + n) as u8) as char]
    } else {
        decimal_text(n / 10) + seq![((48 + n % 10) as u8) as char]
    }
}

/// The text of one decimal digit.
fn digit_text(d: usize) -> (s: &'static str)
    requires
        d < 10,
    ensures
        s@ == seq![((48 + d) as u8) as char],
{
    match d {
        0 => {
            proof {
                reveal_strlit("0");
            }
            "0"
        },
        1 => {
            proof {
                reveal_strlit("1");
            }
            "1"
        },
        2 => {
            proof {
                reveal_strlit("2");
            }
            "2"
        },
        3 => {
            proof {
                reveal_strlit("3");
            }
            "3"
        },
        4 => {
            proof {
                reveal_strlit("4");
            }
            "4"
        },
        5 => {
            proof {
                reveal_strlit("5");
            }
            "5"
        },
        6 => {
            proof {
                reveal_strlit("6");
            }
            "6"
        },
        7 => {
            proof {
                reveal_strlit("7");
            }
            "7"
        },
        8 => {
            proof {
                reveal_strlit("8");
            }
            "8"
        },
        _ => {
            proof {
                reveal_strlit("9");
            }
            "9"
        },
    }
}

/// The decimal digits of `n`, most significant first.
fn usize_text(n: usize) -> (s: String)
    ensures
        s@ == decimal_text(n as nat),
    decreases n,
{
    let mut s = if n >= 10 {
        usize_text(n / 10)
    } else {
        String::new()
    };
    s.append(digit_text(n % 10));
    s
}

/// `"true"` or `"false"`.
pub open spec fn bool_text(b: bool) -> Seq<char> {
    if b {
        "true"@
    } else {
        "false"@
    }
}

fn append_bool(s: &mut String, b: bool)
    ensures
        final(s)@ == old(s)@ + bool_text(b),
{
    if b {
        s.append("true");
    } else {
        s.append("false");
    }
}

/// Encode `locals`, keep the positions of `pattern`, decode through the top `coefficients`
/// coefficients of every relation, and require the exact local polynomials and codeword.
pub fn check_case(layout: &Layout, locals: &Vec<Vec<Fe>>, pattern: &Vec<Vec<usize>>, coefficients: usize) -> (res: Result<CaseReport>)
    requires
        layout.shape_of().ell * (layout.shape_of().r + 1) < usize::MAX,
        locals.len() == layout.shape_of().ell,
        forall|j: int| 0 <= j < locals.len() ==> (#[trigger] locals@[j]).len() <= layout.shape_of().m,
        pattern.len() <= locals.len(),
        forall|j: int, x: int| 0 <= j < pattern.len() && 0 <= x < pattern@[j].len() ==> #[trigger] pattern@[j]@[x] < layout.shape_of().m,
    ensures
        pattern.len() != layout.shape_of().ell ==> (res matches Err(e) && e.0@ == "invalid decoder dimensions"@),
        res matches Ok(report) ==> {
            &&& report.unknowns == pattern_unknowns(pattern@, layout.shape_of().r as int, layout.shape_of().ell as int)
            &&& report.equations == coefficients * (layout.shape_of().ell - layout.shape_of().a)
            &&& report.consistent
            &&& report.rank == report.unknowns
            &&& report.local_polynomials_exact
            &&& report.full_codeword_exact
            &&& report.leading_coefficients_exact
        },
{
    proof {
        use_type_invariant(layout);
    }
    let ell = locals.len();
    let mut codeword: Vec<Vec<Fe>> = Vec::new();
    let mut j: usize = 0;
    while j < ell
        invariant
            ell == locals.len(),
            ell == layout.shape_of().ell,
            forall|u: int| 0 <= u < locals.len() ==> (#[trigger] locals@[u]).len() <= layout.shape_of().m,
            j <= ell,
            codeword.len() == j,
            forall|u: int| 0 <= u < j ==> (#[trigger] codeword@[u]).len() == layout.shape_of().m,
        decreases ell - j,
    {
        codeword.push(layout.evaluate(j, &locals[j]));
        j = j + 1;
    }
    let mut received: Vec<Vec<(usize, Fe)>> = Vec::new();
    let mut j: usize = 0;
    while j < pattern.len()
        invariant
            pattern.len() <= ell,
            codeword.len() == ell,
            forall|u: int| 0 <= u < ell ==> (#[trigger] codeword@[u]).len() == layout.shape_of().m,
            forall|u: int, x: int| 0 <= u < pattern.len() && 0 <= x < pattern@[u].len() ==> #[trigger] pattern@[u]@[x] < layout.shape_of().m,
            j <= pattern.len(),
            received.len() == j,
            forall|u: int| 0 <= u < j ==> (#[trigger] received@[u]).len() == pattern@[u].len(),
        decreases pattern.len() - j,
    {
        let mut pairs: Vec<(usize, Fe)> = Vec::new();
        let mut x: usize = 0;
        while x < pattern[j].len()
            invariant
                j < pattern.len(),
                pattern.len() <= ell,
                codeword.len() == ell,
                codeword@[j as int].len() == layout.shape_of().m,
                forall|y: int| 0 <= y < pattern@[j as int].len() ==> #[trigger] pattern@[j as int]@[y] < layout.shape_of().m,
                x <= pattern@[j as int].len(),
                pairs.len() == x,
            decreases pattern@[j as int].len() - x,
        {
            let i = pattern[j][x];
            pairs.push((i, codeword[j][i]));
            x = x + 1;
        }
        received.push(pairs);
        j = j + 1;
    }
    let decoded = decode(layout, &received, coefficients)?;
    let mut recovered = false;
    let mut leading = false;
    match &decoded.locals {
        Some(result) => {
            recovered = true;
            leading = true;
            let mut j: usize = 0;
            while j < ell
                invariant
                    result.len() == ell,
                    ell == locals.len(),
                    ell == layout.shape_of().ell,
                    codeword.len() == ell,
                    forall|u: int| 0 <= u < ell ==> (#[trigger] codeword@[u]).len() == layout.shape_of().m,
                    forall|u: int| 0 <= u < ell ==> (#[trigger] result@[u]).len() == layout.shape_of().r,
                    layout.shape_of().r <= layout.shape_of().m,
                    j <= ell,
                    recovered ==> forall|u: int| 0 <= u < j ==> (#[trigger] result@[u])@ == locals@[u]@,
                    recovered ==> leading,
                decreases ell - j,
            {
                let a = &result[j];
                let b = &locals[j];
                let same = same_elements(a, b);
                if !same {
                    recovered = false;
                }
                let values = layout.evaluate(j, a);
                if !same_elements(&values, &codeword[j]) {
                    recovered = false;
                }
                let last_same = if a.len() == 0 || b.len() == 0 {
                    a.len() == b.len()
                } else {
                    a[a.len() - 1] == b[b.len() - 1]
                };
                if !last_same {
                    leading = false;
                }
                j = j + 1;
            }
        },
        None => {},
    }
    if !decoded.consistent || !recovered || decoded.rank != decoded.unknowns {
        let mut message = String::from_str("structured recovery failed: unknowns=");
        message.append(&usize_text(decoded.unknowns));
        message.append(", rank=");
        message.append(&usize_text(decoded.rank));
        message.append(", consistent=");
        append_bool(&mut message, decoded.consistent);
        message.append(", exact=");
        append_bool(&mut message, recovered);
        proof {
            lemma_decode_messages();
        }
        return Err(Error(message));
    }
    proof {
        lemma_pattern_unknowns(pattern@, received@, layout.shape_of().r as int, ell as int);
    }
    Ok(CaseReport {
        unknowns: decoded.unknowns,
        equations: decoded.equations,
        rank: decoded.rank,
        consistent: decoded.consistent,
        local_polynomials_exact: recovered,
        full_codeword_exact: recovered,
        leading_coefficients_exact: leading,
    })
}

/// Whether two vectors hold the same elements in the same order.
fn same_elements(a: &Vec<Fe>, b: &Vec<Fe>) -> (r: bool)
    ensures
        r == (a@ == b@),
{
    if a.len() != b.len() {
        return false;
    }
    let mut i: usize = 0;
    while i < a.len()
        invariant
            a.len() == b.len(),
            i <= a.len(),
            forall|k: int| 0 <= k < i ==> a@[k] == b@[k],
        decreases a.len() - i,
    {
        if a[i] != b[i] {
            return false;
        }
        i = i + 1;
    }
    assert(a@ == b@);
    true
}

/// A root of unity of order `order` in the scalar field, where the field has one.
pub fn root_of_unity_element(order: u64) -> (w: Option<Fe>)
    ensures
        is_pow2(order as nat) && order <= 0x1_0000_0000 ==> w is Some,
        w matches Some(x) ==> x@ == root_of_unity(order as nat),
{
    fr_root_of_unity(order)
}

/// `prod_{i < n, i != s} (x - gs[i])`.
fn skip_product_at(gammas: &[Fe], n: usize, s: usize, x: Fe) -> (r: Fe)
    requires
        n <= gammas.len(),
    ensures
        r@ == prod_skip(fes(gammas@), x@, s as int, n as int) % modulus(),
{
    let ghost gs = fes(gammas@);
    let mut acc = Fe::one();
    proof {
        lemma_small_mod(1, modulus() as nat);
    }
    let mut i: usize = 0;
    while i < n
        invariant
            gs == fes(gammas@),
            n <= gammas.len(),
            i <= n,
            acc@ == prod_skip(gs, x@, s as int, i as int) % modulus(),
        decreases n - i,
    {
        if i != s {
            let d = x.sub(gammas[i]);
            proof {
                lemma_mul_diff_mod(acc@, prod_skip(gs, x@, s as int, i as int), x@, gs[i as int]);
            }
            acc = acc.mul(d);
        }
        i = i + 1;
    }
    acc
}

/// The parity relation of group `k` from the inverted source denominators.
fn relation_of(gammas: &[Fe], dens: &[Fe], a: usize, k: usize) -> (row: Vec<Fe>)
    requires
        a <= k < gammas.len(),
        dens.len() == a,
        forall|t: int|
            0 <= t < a ==> #[trigger] dens@[t]@ == inverse_or_zero(
                prod_skip(fes(gammas@), fes(gammas@)[t], t, a as int) % modulus(),
            ),
    ensures
        fes(row@) == relation_row(fes(gammas@), a as int, gammas.len() as int, k as int),
{
    let ghost labels = fes(gammas@);
    let ell = gammas.len();
    let mut row: Vec<Fe> = vec![Fe::zero(); ell];
    let x = gammas[k];
    let mut s: usize = 0;
    while s < a
        invariant
            labels == fes(gammas@),
            ell == gammas.len(),
            a <= k < ell,
            dens.len() == a,
            forall|t: int|
                0 <= t < a ==> #[trigger] dens@[t]@ == inverse_or_zero(
                    prod_skip(labels, labels[t], t, a as int) % modulus(),
                ),
            x == gammas@[k as int],
            s <= a,
            row.len() == ell,
            forall|t: int| 0 <= t < s ==> #[trigger] row@[t]@ == relation_entry(labels, a as int, k as int, t),
            forall|t: int| s <= t < ell ==> #[trigger] row@[t]@ == 0,
        decreases a - s,
    {
        let p = skip_product_at(gammas, a, s, x);
        let v = dens[s].mul(p);
        proof {
            Fe::lemma_range(dens@[s as int]);
            lemma_mul_mod_noop_right(dens@[s as int]@, prod_skip(labels, labels[k as int], s as int, a as int), modulus());
        }
        row.set(s, v.neg());
        s = s + 1;
    }
    row.set(k, Fe::one());
    proof {
        let want = relation_row(labels, a as int, ell as int, k as int);
        assert forall|t: int| 0 <= t < ell implies fes(row@)[t] == want[t] by {
            if t == k {
                assert(row@[t]@ == 1);
            } else if t < a {
            } else {
                assert(row@[t]@ == 0);
            }
        }
        assert(fes(row@) == want);
    }
    row
}

} // verus!
