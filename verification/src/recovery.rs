//! Receiver-side erasure patterns and survivor bookkeeping.
use crate::domain::{constructible, gamma_seq, outer_value, point_value, Domain, Params, ParamsView, Scheme};
use crate::error::{require, Error, Result};
use crate::field::{inv_of, lemma_inv_of, modulus, Fe};
use crate::polynomial::{
    coef, divide_linear, evaluate, fes, fr_batch_inversion, interpolate, lemma_quotient_is_cofactor,
    lemma_vanish_remove, peval, prod, vanishing,
};
use crate::separation::{cell, in_grid, lemma_cell};
use crate::kzg::{msm1, opening_of, Opening, PublicSrs, G1};
use crate::protocol::{derived, VerifiedHeader};
use vstd::arithmetic::div_mod::*;
use vstd::arithmetic::power::*;
use vstd::prelude::*;

verus! {

/// How many of the rows `0..upto` of group `j` survive under `erased`.
pub open spec fn group_survivors(erased: spec_fn(int, int) -> bool, j: int, upto: int) -> nat
    decreases upto,
{
    if upto <= 0 {
        0
    } else {
        group_survivors(erased, j, upto - 1) + if erased(j, upto - 1) {
            0nat
        } else {
            1nat
        }
    }
}

/// How many of the groups `0..upto` keep row `i` under `erased`.
pub open spec fn row_survivors(erased: spec_fn(int, int) -> bool, i: int, upto: int) -> nat
    decreases upto,
{
    if upto <= 0 {
        0
    } else {
        row_survivors(erased, i, upto - 1) + if erased(upto - 1, i) {
            0nat
        } else {
            1nat
        }
    }
}

/// Survivor counts are bounded by the number of cells counted.
pub proof fn lemma_survivors_bounded(erased: spec_fn(int, int) -> bool, x: int, upto: int)
    requires
        upto >= 0,
    ensures
        group_survivors(erased, x, upto) <= upto,
        row_survivors(erased, x, upto) <= upto,
    decreases upto,
{
    if upto > 0 {
        lemma_survivors_bounded(erased, x, upto - 1);
    }
}

/// The diagonal pattern applies to `b = 0` codes with at least as many rows as groups.
pub open spec fn diagonal_applies(v: ParamsView) -> bool {
    v.b == 0 && v.m >= v.ell
}

/// Group `j` loses the `m - r + 1` rows that start at its diagonal offset `m j / ell`.
pub open spec fn diagonal_erased(v: ParamsView, j: int, index: int) -> bool {
    (index + v.m - (v.m * j) / (v.ell as int)) % (v.m as int) <= v.m - v.r
}

/// Survivors of group `j` of the diagonal pattern among its first `n` positions, when the
/// group's diagonal offset is `o`.
proof fn lemma_diagonal_prefix(v: ParamsView, j: int, o: int, n: int)
    requires
        2 <= v.r < v.m,
        0 <= o < v.m,
        o == (v.m * j) / (v.ell as int),
        0 <= n <= v.m,
    ensures
        group_survivors(|x: int, y: int| diagonal_erased(v, x, y), j, n) == if n <= o {
            if n <= o - v.r + 1 { 0int } else { n - if o - v.r + 1 > 0 { o - v.r + 1 } else { 0int } }
        } else {
            (if o < v.r - 1 { o } else { v.r - 1 }) + if n > o + v.m - v.r + 1 { n - (o + v.m - v.r + 1) } else { 0int }
        },
    decreases n,
{
    let m = v.m as int;
    let r = v.r as int;
    if n > 0 {
        lemma_diagonal_prefix(v, j, o, n - 1);
        let i = n - 1;
        let x = i + m - o;
        if i < o {
            lemma_small_mod(x as nat, m as nat);
        } else {
            lemma_fundamental_div_mod_converse(x, m, 1, i - o);
        }
        assert(diagonal_erased(v, j, i) == (x % m <= m - r));
    }
}

/// Every group of the diagonal pattern keeps exactly `r - 1` positions: it loses the
/// `m - r + 1` consecutive positions (cyclically) from its offset.
pub proof fn lemma_diagonal_group_survivors(v: ParamsView, j: int)
    requires
        v.valid(),
        0 <= j < v.ell,
    ensures
        group_survivors(|x: int, y: int| diagonal_erased(v, x, y), j, v.m as int) == v.r - 1,
{
    crate::domain::lemma_valid_bounds(v);
    let m = v.m as int;
    let e = v.ell as int;
    let o = (m * j) / e;
    assert(0 <= o < m) by {
        lemma_div_pos_is_pos(m * j, e);
        assert(m * j < m * e) by (nonlinear_arith)
            requires
                0 <= j < e,
                m > 0,
        ;
        assert(m * e == e * m) by (nonlinear_arith);
        assert(m * j >= 0) by (nonlinear_arith)
            requires
                j >= 0,
                m > 0,
        ;
        if (m * j) / e >= m {
            lemma_fundamental_div_mod(m * j, e);
            lemma_mod_bound(m * j, e);
            assert(e * ((m * j) / e) >= e * m) by (nonlinear_arith)
                requires
                    (m * j) / e >= m,
                    e > 0,
            ;
        }
    }
    lemma_diagonal_prefix(v, j, o, m);
}

/// One received coordinate and its value.
#[derive(Clone, Copy, Debug, PartialEq, Eq)]
pub struct AcceptedValue {
    /// Group index.
    pub group: usize,
    /// Index inside the group.
    pub index: usize,
    /// The received field element.
    pub value: Fe,
}

/// The coordinates that `keep` keeps among the first `upto` cells, in row-major order.
pub open spec fn kept_cells(keep: spec_fn(int, int) -> bool, m: int, upto: int) -> Seq<(int, int)>
    decreases upto,
{
    if upto <= 0 {
        Seq::empty()
    } else {
        let c = upto - 1;
        let rest = kept_cells(keep, m, upto - 1);
        if keep(c / m, c % m) {
            rest.push((c / m, c % m))
        } else {
            rest
        }
    }
}

/// The coordinates of received values.
pub open spec fn coordinates(vals: Seq<AcceptedValue>) -> Seq<(int, int)> {
    vals.map_values(|v: AcceptedValue| (v.group as int, v.index as int))
}

/// `values` has one row of `m` values per group.
pub open spec fn codeword_shape(v: ParamsView, values: Seq<Vec<Fe>>) -> bool {
    &&& values.len() == v.ell
    &&& forall|j: int| 0 <= j < values.len() ==> (#[trigger] values[j]).len() == v.m
}

/// `a` is in the grid of `values` and carries the value stored there.
pub open spec fn selected(values: Seq<Vec<Fe>>, a: AcceptedValue) -> bool {
    &&& a.group < values.len()
    &&& a.index < values[a.group as int].len()
    &&& a.value == values[a.group as int]@[a.index as int]
}

/// Whether every row of `values` has `m` entries and there are `ell` rows.
pub fn has_codeword_shape(p: Params, values: &[Vec<Fe>]) -> (r: bool)
    ensures
        r == codeword_shape(p@, values@),
{
    if values.len() != p.ell() {
        return false;
    }
    let mut j: usize = 0;
    while j < values.len()
        invariant
            j <= values.len(),
            forall|i: int| 0 <= i < j ==> (#[trigger] values@[i]).len() == p@.m,
        decreases values.len() - j,
    {
        if values[j].len() != p.m() {
            return false;
        }
        j = j + 1;
    }
    true
}

/// The values at the kept coordinates of a codeword, in row-major order.
pub(crate) fn select_values(
    p: Params,
    values: &[Vec<Fe>],
    keep: Ghost<spec_fn(int, int) -> bool>,
    flags: &Vec<bool>,
    wanted: bool,
) -> (out: Vec<AcceptedValue>)
    requires
        p@.valid(),
        codeword_shape(p@, values@),
        flags.len() == p@.n(),
        forall|j: int, i: int| in_grid(p@, j, i) ==> (flags@[cell(p@, j, i)] == wanted) == keep@(j, i),
    ensures
        coordinates(out@) == kept_cells(keep@, p@.m as int, p@.n() as int),
        forall|t: int| 0 <= t < out.len() ==> #[trigger] selected(values@, out@[t]),
{
    let ghost v = p@;
    let ell = p.ell();
    let m = p.m();
    let mut out: Vec<AcceptedValue> = Vec::new();
    let mut j: usize = 0;
    while j < ell
        invariant
            v == p@,
            v.valid(),
            ell == v.ell,
            m == v.m,
            codeword_shape(v, values@),
            flags.len() == v.n(),
            forall|a: int, b: int| in_grid(v, a, b) ==> (flags@[cell(v, a, b)] == wanted) == keep@(a, b),
            j <= ell,
            coordinates(out@) == kept_cells(keep@, m as int, (j * m) as int),
            forall|t: int| 0 <= t < out.len() ==> #[trigger] selected(values@, out@[t]),
        decreases ell - j,
    {
        let mut i: usize = 0;
        while i < m
            invariant
                v == p@,
                v.valid(),
                ell == v.ell,
                m == v.m,
                j < ell,
                codeword_shape(v, values@),
                flags.len() == v.n(),
                forall|a: int, b: int| in_grid(v, a, b) ==> (flags@[cell(v, a, b)] == wanted) == keep@(a, b),
                i <= m,
                coordinates(out@) == kept_cells(keep@, m as int, j * m + i),
                forall|t: int| 0 <= t < out.len() ==> #[trigger] selected(values@, out@[t]),
            decreases m - i,
        {
            proof {
                lemma_cell(v, j as int, i as int);
            }
            let c = j * m + i;
            assert(c == cell(v, j as int, i as int));
            let ghost before = out@;
            assert(in_grid(v, j as int, i as int));
            assert((flags@[cell(v, j as int, i as int)] == wanted) == keep@(j as int, i as int));
            if flags[c] == wanted {
                let row = &values[j];
                assert(row.len() == m);
                out.push(AcceptedValue { group: j, index: i, value: row[i] });
                assert(coordinates(out@) == coordinates(before).push((j as int, i as int)));
            }
            assert((j * m + i + 1) - 1 == c);
            i = i + 1;
        }
        assert(j * m + m == (j + 1) * m) by (nonlinear_arith);
        j = j + 1;
    }
    assert(j * m == v.n()) by (nonlinear_arith)
        requires
            j == v.ell,
            v.n() == v.ell * v.m,
            m == v.m,
    ;
    out
}

/// Received coordinates lie in the grid, appear once each and number at most `n`.
pub open spec fn received_ok(v: ParamsView, rs: Seq<AcceptedValue>) -> bool {
    &&& rs.len() <= v.n()
    &&& forall|t: int|
        0 <= t < rs.len() ==> in_grid(v, #[trigger] rs[t].group as int, rs[t].index as int)
    &&& forall|t: int, u: int|
        0 <= t < u < rs.len() ==> !(#[trigger] rs[t].group == #[trigger] rs[u].group && rs[t].index
            == rs[u].index)
}

/// Check that received coordinates are in range and not repeated.
fn validate_received(p: Params, received: &[AcceptedValue]) -> (res: Result<()>)
    ensures
        res is Ok <==> received_ok(p@, received@),
        received@.len() > p@.n() ==> (res matches Err(e) && e.0@ == "too many received values"@),
        received@.len() <= p@.n() ==> (res matches Err(e) ==> e.0@
            == "invalid/duplicate received position"@),
{
    proof {
        use_type_invariant(&p);
    }
    let ghost v = p@;
    let ghost rs = received@;
    require(received.len() <= p.n(), "too many received values")?;
    let m = p.m();
    let mut seen: Vec<bool> = vec![false; p.n()];
    proof {
        assert forall|a: int, b: int| in_grid(v, a, b) implies !(#[trigger] seen@[cell(v, a, b)]) by {
            lemma_cell(v, a, b);
        }
    }
    let mut t: usize = 0;
    while t < received.len()
        invariant
            v == p@,
            v.valid(),
            rs == received@,
            m == v.m,
            rs.len() <= v.n(),
            seen.len() == v.n(),
            t <= rs.len(),
            forall|u: int| 0 <= u < t ==> in_grid(v, #[trigger] rs[u].group as int, rs[u].index as int),
            forall|u: int, w: int|
                0 <= u < w < t ==> !(#[trigger] rs[u].group == #[trigger] rs[w].group && rs[u].index
                    == rs[w].index),
            forall|a: int, b: int|
                in_grid(v, a, b) ==> (#[trigger] seen@[cell(v, a, b)] <==> exists|u: int|
                    0 <= u < t && rs[u].group == a && rs[u].index == b),
        decreases rs.len() - t,
    {
        let r = received[t];
        if !(r.group < p.ell() && r.index < m) {
            return Err(Error("invalid/duplicate received position".to_owned()));
        }
        proof {
            lemma_cell(v, r.group as int, r.index as int);
        }
        let c = r.group * m + r.index;
        assert(c == cell(v, r.group as int, r.index as int));
        if seen[c] {
            proof {
                let u = choose|u: int| 0 <= u < t && rs[u].group == r.group && rs[u].index == r.index;
                assert(!received_ok(v, rs)) by {
                    assert(rs[u].group == rs[t as int].group && rs[u].index == rs[t as int].index);
                }
            }
            return Err(Error("invalid/duplicate received position".to_owned()));
        }
        seen.set(c, true);
        proof {
            assert forall|a: int, b: int| in_grid(v, a, b) implies (#[trigger] seen@[cell(v, a, b)]
                <==> exists|u: int| 0 <= u < t + 1 && rs[u].group == a && rs[u].index == b) by {
                lemma_cell(v, a, b);
                if cell(v, a, b) == c {
                    lemma_cell(v, r.group as int, r.index as int);
                    assert(a == r.group && b == r.index);
                    assert(rs[t as int].group == a && rs[t as int].index == b);
                } else {
                    if a == r.group && b == r.index {
                        assert(false);
                    }
                    if exists|u: int| 0 <= u < t + 1 && rs[u].group == a && rs[u].index == b {
                        let u = choose|u: int| 0 <= u < t + 1 && rs[u].group == a && rs[u].index == b;
                        assert(u != t);
                    }
                }
            }
            assert forall|u: int, w: int| 0 <= u < w < t + 1 implies !(#[trigger] rs[u].group
                == #[trigger] rs[w].group && rs[u].index == rs[w].index) by {
                if w == t && rs[u].group == rs[w].group && rs[u].index == rs[w].index {
                    assert(in_grid(v, r.group as int, r.index as int));
                    assert(seen@[cell(v, r.group as int, r.index as int)] || !(exists|x: int|
                        0 <= x < t && rs[x].group == r.group && rs[x].index == r.index));
                }
            }
        }
        t = t + 1;
    }
    Ok(())
}

/// `f` lies in the code space: every nonzero coefficient has degree at most the bound
/// and a position below `r` inside its block of `m`.
pub open spec fn code_space(v: ParamsView, f: Seq<int>) -> bool {
    forall|i: int|
        0 <= i < f.len() ==> #[trigger] f[i] == 0 || (i <= v.degree() && i % (v.m as int) < v.r)
}

/// Whether the global polynomial `f` lies in the code space.
pub fn in_code_space(p: Params, f: &[Fe]) -> (r: bool)
    ensures
        r == code_space(p@, fes(f@)),
{
    proof {
        use_type_invariant(&p);
        lemma_valid_bounds_here(p@);
    }
    let degree = p.degree();
    let m = p.m();
    let r = p.r();
    let mut i: usize = 0;
    while i < f.len()
        invariant
            degree == p@.degree(),
            m == p@.m,
            r == p@.r,
            m > 0,
            i <= f.len(),
            forall|t: int|
                0 <= t < i ==> #[trigger] fes(f@)[t] == 0 || (t <= p@.degree() && t % (m as int)
                    < r),
        decreases f.len() - i,
    {
        if !(f[i].is_zero() || (i <= degree && i % m < r)) {
            assert(!(fes(f@)[i as int] == 0 || (i <= p@.degree() && (i as int) % (m as int) < r)));
            return false;
        }
        i = i + 1;
    }
    true
}

/// Validity bounds of the parameters.
proof fn lemma_valid_bounds_here(v: ParamsView)
    requires
        v.valid(),
    ensures
        v.m > 0,
        v.r < v.m,
        v.degree() < v.n(),
{
    crate::domain::lemma_valid_bounds(v);
}


/// `sum_{t < nb} f[t m + i] g^t`: coefficient `i` of the local polynomial that the
/// global polynomial `f` restricts to on a coset with label `g`.
pub open spec fn fold_sum(f: Seq<int>, m: int, i: int, g: int, nb: int) -> int
    decreases nb,
{
    if nb <= 0 {
        0
    } else {
        fold_sum(f, m, i, g, nb - 1) + coef(f, (nb - 1) * m + i) * pow(g, (nb - 1) as nat)
    }
}

/// Number of blocks of `m` that a sequence of length `len` fills.
pub open spec fn block_count(len: int, m: int) -> int {
    (len + m - 1) / m
}

/// Restrict a global polynomial of the code space to each group.
pub fn local_coefficients(domain: &Domain, f: &[Fe]) -> (res: Result<Vec<Vec<Fe>>>)
    ensures
        res is Ok <==> code_space(domain.parameters()@, fes(f@)),
        res matches Err(e) ==> e.0@ == "global polynomial outside V_D"@,
        res matches Ok(locals) ==> {
            let v = domain.parameters()@;
            &&& locals.len() == v.ell
            &&& forall|j: int|
                0 <= j < v.ell ==> (#[trigger] locals@[j]).len() == v.r && forall|i: int|
                    0 <= i < v.r ==> #[trigger] fes(locals@[j]@)[i] == fold_sum(
                        fes(f@),
                        v.m as int,
                        i,
                        gamma_seq(v)[j],
                        block_count(f.len() as int, v.m as int),
                    ) % modulus()
        },
{
    let p = domain.params();
    let ghost v = p@;
    let ghost fv = fes(f@);
    require(in_code_space(p, f), "global polynomial outside V_D")?;
    proof {
        lemma_valid_bounds_here(v);
    }
    let m = p.m();
    let r = p.r();
    let gammas = domain.gammas();
    proof {
        if f.len() > 0 {
            lemma_div_decreases(f.len() as int, m as int);
        }
    }
    let nb = f.len() / m + if f.len() % m == 0 {
        0
    } else {
        1
    };
    proof {
        let len = f.len() as int;
        let q = len / (m as int);
        let rm = len % (m as int);
        lemma_fundamental_div_mod(len, m as int);
        lemma_mod_bound(len, m as int);
        if rm == 0 {
            assert(q * m + (m - 1) == len + m - 1) by (nonlinear_arith)
                requires
                    len == m * q + rm,
                    rm == 0,
            ;
            lemma_fundamental_div_mod_converse(len + m - 1, m as int, q, m - 1);
        } else {
            assert((q + 1) * m + (rm - 1) == len + m - 1) by (nonlinear_arith)
                requires
                    len == m * q + rm,
            ;
            lemma_fundamental_div_mod_converse(len + m - 1, m as int, q + 1, rm - 1);
        }
    }
    assert(nb == block_count(f.len() as int, m as int));
    let mut locals: Vec<Vec<Fe>> = Vec::new();
    let mut j: usize = 0;
    while j < gammas.len()
        invariant
            v == p@,
            fv == fes(f@),
            m == v.m,
            r == v.r,
            0 < r < m,
            nb == block_count(f.len() as int, m as int),
            fes(gammas@) == gamma_seq(v),
            gammas.len() == v.ell,
            j <= gammas.len(),
            locals.len() == j,
            forall|a: int|
                0 <= a < j ==> (#[trigger] locals@[a]).len() == v.r && forall|i: int|
                    0 <= i < v.r ==> #[trigger] fes(locals@[a]@)[i] == fold_sum(
                        fv,
                        v.m as int,
                        i,
                        gamma_seq(v)[a],
                        nb as int,
                    ) % modulus(),
        decreases gammas.len() - j,
    {
        let gamma = gammas[j];
        assert(gamma@ == gamma_seq(v)[j as int]);
        let mut local: Vec<Fe> = vec![Fe::zero(); r];
        let mut power = Fe::one();
        proof {
            lemma_pow0(gamma@);
            lemma_small_mod(1, modulus() as nat);
            assert forall|i: int| 0 <= i < r implies #[trigger] fes(local@)[i] == fold_sum(
                fv,
                m as int,
                i,
                gamma@,
                0,
            ) % modulus() by {
                lemma_small_mod(0, modulus() as nat);
            }
        }
        let mut t: usize = 0;
        while t < nb
            invariant
                fv == fes(f@),
                m == v.m,
                r == v.r,
                0 < r < m,
                nb == block_count(f.len() as int, m as int),
                t <= nb,
                local.len() == r,
                power@ == pow(gamma@, t as nat) % modulus(),
                forall|i: int|
                    0 <= i < r ==> #[trigger] fes(local@)[i] == fold_sum(fv, m as int, i, gamma@, t as int)
                        % modulus(),
            decreases nb - t,
        {
            proof {
                let total = f.len() + m - 1;
                let q = total / (m as int);
                lemma_fundamental_div_mod(total, m as int);
                lemma_mod_bound(total, m as int);
                assert(t * m < f.len()) by (nonlinear_arith)
                    requires
                        t + 1 <= q,
                        total == m * q + total % (m as int),
                        0 <= total % (m as int) < m,
                        total == f.len() + m - 1,
                        m > 0,
                ;
            }
            let start = t * m;
            let mut i: usize = 0;
            while i < r
                invariant
                    fv == fes(f@),
                    m == v.m,
                    r == v.r,
                    start == t * m,
                    start < f.len(),
                    i <= r,
                    local.len() == r,
                    power@ == pow(gamma@, t as nat) % modulus(),
                    forall|x: int|
                        0 <= x < i ==> #[trigger] fes(local@)[x] == fold_sum(fv, m as int, x, gamma@, t + 1)
                            % modulus(),
                    forall|x: int|
                        i <= x < r ==> #[trigger] fes(local@)[x] == fold_sum(fv, m as int, x, gamma@, t as int)
                            % modulus(),
                decreases r - i,
            {
                let c = if i < f.len() - start {
                    f[start + i]
                } else {
                    Fe::zero()
                };
                assert(c@ == coef(fv, t * m + i));
                let upd = local[i].add(c.mul(power));
                proof {
                    let mm = modulus();
                    let prev = fold_sum(fv, m as int, i as int, gamma@, t as int);
                    let term = coef(fv, t * m + i) * pow(gamma@, t as nat);
                    assert(fes(local@)[i as int] == prev % mm);
                    lemma_mul_mod_noop_general(c@, pow(gamma@, t as nat), mm);
                    lemma_add_mod_noop(prev, term, mm);
                    lemma_mod_twice(prev, mm);
                    lemma_mod_twice(term, mm);
                    assert(fold_sum(fv, m as int, i as int, gamma@, t + 1) == prev + term);
                }
                let ghost old_local = fes(local@);
                local.set(i, upd);
                assert(fes(local@) == old_local.update(i as int, upd@));
                i = i + 1;
            }
            proof {
                Fe::lemma_range(gamma);
                lemma_pow_step_mod_here(gamma@, t as nat);
            }
            power = power.mul(gamma);
            t = t + 1;
        }
        locals.push(local);
        j = j + 1;
    }
    Ok(locals)
}

/// `(pow(g, t) mod p) g mod p = pow(g, t + 1) mod p` for a reduced `g`.
proof fn lemma_pow_step_mod_here(g: int, t: nat)
    requires
        0 <= g < modulus(),
    ensures
        ((pow(g, t) % modulus()) * g) % modulus() == pow(g, t + 1) % modulus(),
{
    crate::domain::lemma_pow_step_mod(g, t);
    lemma_small_mod(g as nat, modulus() as nat);
}

/// The message that the source groups and the residual group's first `b`
/// coefficients hold.
pub open spec fn locals_message(v: ParamsView, locals: Seq<Seq<int>>) -> Seq<int>
    decreases v.a,
{
    let src = flatten_rows(locals, v.a as int);
    if v.b > 0 {
        src + locals[v.a as int].take(v.b as int)
    } else {
        src
    }
}

/// The concatenation of the first `n` rows.
pub open spec fn flatten_rows(rows: Seq<Seq<int>>, n: int) -> Seq<int>
    decreases n,
{
    if n <= 0 {
        Seq::empty()
    } else {
        flatten_rows(rows, n - 1) + rows[n - 1]
    }
}

/// The values of a codeword: group `j` evaluated at its `m` points.
pub open spec fn codeword_values(v: ParamsView, scheme: Scheme, locals: Seq<Seq<int>>) -> Seq<
    Seq<int>,
> {
    Seq::new(
        v.ell,
        |j: int| Seq::new(v.m, |i: int| peval(locals[j], point_value(v, scheme, j, i))),
    )
}

/// Received values agree with a codeword.
pub open spec fn agrees(values: Seq<Seq<int>>, rs: Seq<AcceptedValue>) -> bool {
    forall|t: int|
        0 <= t < rs.len() ==> #[trigger] values[rs[t].group as int][rs[t].index as int]
            == rs[t].value@
}

/// A recovered codeword: its message, its values and its local coefficients.
pub struct Recovered {
    message: Vec<Fe>,
    values: Vec<Vec<Fe>>,
    locals: Vec<Vec<Fe>>,
}

impl Recovered {
    /// The recovered message.
    pub closed spec fn message_view(self) -> Seq<int> {
        fes(self.message@)
    }

    /// The recovered values, one row per group.
    pub closed spec fn values_view(self) -> Seq<Seq<int>> {
        crate::protocol::rows_view(self.values@)
    }

    /// The recovered local coefficients, one row per group.
    pub closed spec fn locals_view(self) -> Seq<Seq<int>> {
        crate::protocol::rows_view(self.locals@)
    }

    /// The recovered message.
    pub fn message(&self) -> (m: &[Fe])
        ensures
            fes(m@) == self.message_view(),
    {
        self.message.as_slice()
    }

    /// The recovered values.
    pub fn values(&self) -> (v: &[Vec<Fe>])
        ensures
            crate::protocol::rows_view(v@) == self.values_view(),
    {
        self.values.as_slice()
    }
}

/// Evaluate recovered local coefficients, check them against every received value and
/// read the message from them.
fn finish(
    domain: &Domain,
    scheme: Scheme,
    locals: Vec<Vec<Fe>>,
    received: &[AcceptedValue],
) -> (res: Result<Recovered>)
    requires
        locals.len() == domain.parameters()@.ell,
        forall|j: int|
            0 <= j < locals.len() ==> (#[trigger] locals@[j]).len() == domain.parameters()@.r,
        forall|t: int|
            0 <= t < received.len() ==> in_grid(
                domain.parameters()@,
                #[trigger] received@[t].group as int,
                received@[t].index as int,
            ),
    ensures
        res is Ok <==> (scheme != Scheme::Product || domain.parameters()@.b == 0) && agrees(
            codeword_values(
                domain.parameters()@,
                scheme,
                crate::protocol::rows_view(locals@),
            ),
            received@,
        ),
        res matches Ok(rec) ==> {
            let v = domain.parameters()@;
            let lv = crate::protocol::rows_view(locals@);
            &&& rec.locals_view() == lv
            &&& rec.values_view() == codeword_values(v, scheme, lv)
            &&& rec.message_view() == locals_message(v, lv)
        },
        res matches Err(e) ==> (e.0@ == "product baseline requires b=0"@ || e.0@
            == "reconstruction disagrees with evidence"@),
{
    let p = domain.params();
    let ghost v = p@;
    let ghost lv = crate::protocol::rows_view(locals@);
    let ghost expect = codeword_values(v, scheme, lv);
    let mut values: Vec<Vec<Fe>> = Vec::new();
    let mut j: usize = 0;
    while j < locals.len()
        invariant
            v == p@,
            p == domain.parameters(),
            lv == crate::protocol::rows_view(locals@),
            expect == codeword_values(v, scheme, lv),
            locals.len() == v.ell,
            forall|a: int| 0 <= a < locals.len() ==> (#[trigger] locals@[a]).len() == v.r,
            scheme != Scheme::Product || v.b == 0 || j == 0,
            j <= locals.len(),
            values.len() == j,
            forall|a: int| 0 <= a < j ==> #[trigger] fes(values@[a]@) == expect[a],
        decreases locals.len() - j,
    {
        let row = domain.evaluate(scheme, j, locals[j].as_slice())?;
        assert(fes(row@) == expect[j as int]);
        values.push(row);
        j = j + 1;
    }
    if locals.len() == 0 {
        proof {
            lemma_valid_bounds_here(v);
        }
    }
    let mut t: usize = 0;
    while t < received.len()
        invariant
            v == p@,
            p == domain.parameters(),
            scheme != Scheme::Product || v.b == 0,
            lv == crate::protocol::rows_view(locals@),
            expect == codeword_values(v, scheme, lv),
            values.len() == v.ell,
            forall|a: int| 0 <= a < v.ell ==> #[trigger] fes(values@[a]@) == expect[a],
            forall|u: int|
                0 <= u < received.len() ==> in_grid(
                    v,
                    #[trigger] received@[u].group as int,
                    received@[u].index as int,
                ),
            t <= received.len(),
            forall|u: int|
                0 <= u < t ==> #[trigger] expect[received@[u].group as int][received@[u].index as int]
                    == received@[u].value@,
        decreases received.len() - t,
    {
        let r = received[t];
        assert(in_grid(v, r.group as int, r.index as int));
        let row = &values[r.group];
        assert(fes(row@) == expect[r.group as int]);
        let x = row[r.index];
        proof {
            use_type_invariant(&x);
            use_type_invariant(&r.value);
        }
        assert(fes(row@)[r.index as int] == x@);
        if !(x == r.value) {
            proof {
                if x@ == r.value@ {
                    Fe::lemma_eq(x, r.value);
                }
                assert(expect[r.group as int][r.index as int] != received@[t as int].value@);
                assert(!agrees(expect, received@));
            }
            return Err(Error("reconstruction disagrees with evidence".to_owned()));
        }
        t = t + 1;
    }
    let a = p.a();
    let b = p.b();
    let mut message: Vec<Fe> = Vec::new();
    let mut s: usize = 0;
    while s < a
        invariant
            v == p@,
            a == v.a,
            v.valid(),
            lv == crate::protocol::rows_view(locals@),
            locals.len() == v.ell,
            s <= a,
            fes(message@) == flatten_rows(lv, s as int),
        decreases a - s,
    {
        let mut i: usize = 0;
        let ghost before = fes(message@);
        while i < locals[s].len()
            invariant
                s < locals.len(),
                lv == crate::protocol::rows_view(locals@),
                i <= locals@[s as int].len(),
                fes(message@) == before + lv[s as int].take(i as int),
            decreases locals@[s as int].len() - i,
        {
            let ghost old_m = fes(message@);
            let e = locals[s][i];
            message.push(e);
            proof {
                assert(fes(message@) == old_m.push(e@));
                assert(lv[s as int][i as int] == e@);
                assert(lv[s as int].take(i + 1) == lv[s as int].take(i as int).push(e@));
            }
            i = i + 1;
            assert(fes(message@) == before + lv[s as int].take(i as int));
        }
        assert(lv[s as int].take(i as int) == lv[s as int]);
        s = s + 1;
    }
    if b > 0 {
        let ghost before = fes(message@);
        let mut i: usize = 0;
        while i < b
            invariant
                v == p@,
                a == v.a,
                b == v.b,
                v.valid(),
                lv == crate::protocol::rows_view(locals@),
                locals.len() == v.ell,
                forall|x: int| 0 <= x < locals.len() ==> (#[trigger] locals@[x]).len() == v.r,
                i <= b,
                fes(message@) == before + lv[a as int].take(i as int),
            decreases b - i,
        {
            let ghost old_m = fes(message@);
            let e = locals[a][i];
            message.push(e);
            proof {
                assert(fes(message@) == old_m.push(e@));
                assert(lv[a as int][i as int] == e@);
                assert(lv[a as int].take(i + 1) == lv[a as int].take(i as int).push(e@));
            }
            i = i + 1;
            assert(fes(message@) == before + lv[a as int].take(i as int));
        }
    }
    let rec = Recovered { message, values, locals };
    assert(rec.values_view() == expect);
    Ok(rec)
}

/// The helper indices are in range, avoid the target and are pairwise distinct.
pub open spec fn helpers_ok(v: ParamsView, helpers: Seq<usize>, target: int) -> bool {
    &&& forall|h: int| 0 <= h < helpers.len() ==> #[trigger] helpers[h] < v.ell && helpers[h] != target
    &&& forall|h: int, g: int| 0 <= h < g < helpers.len() ==> #[trigger] helpers[h] != #[trigger] helpers[g]
}

/// The outer labels of the helpers.
pub open spec fn helper_labels(v: ParamsView, helpers: Seq<usize>) -> Seq<int> {
    Seq::new(helpers.len(), |h: int| gamma_seq(v)[helpers[h] as int])
}

/// The quantity that the row weight of helper `s` is the quotient by:
/// `(gamma_t - x_s) prod_{u != s} (x_s - x_u)`.
pub open spec fn row_weight_den(xs: Seq<int>, tg: int, s: int) -> int {
    ((tg - xs[s]) * (prod(xs.remove(s), xs[s]) % modulus())) % modulus()
}

/// Whether helper indices are pairwise distinct, in range and not the target.
fn check_helpers(p: Params, helpers: &[usize], target: usize) -> (r: bool)
    ensures
        r == helpers_ok(p@, helpers@, target as int),
{
    let ell = p.ell();
    let mut seen: Vec<bool> = vec![false; ell];
    let mut h: usize = 0;
    while h < helpers.len()
        invariant
            ell == p@.ell,
            seen.len() == ell,
            h <= helpers.len(),
            helpers_ok(p@, helpers@.take(h as int), target as int),
            forall|j: int|
                0 <= j < ell ==> (#[trigger] seen@[j] <==> exists|g: int| 0 <= g < h && helpers@[g] == j),
        decreases helpers.len() - h,
    {
        let j = helpers[h];
        if !(j < ell && j != target) {
            assert(!helpers_ok(p@, helpers@, target as int));
            return false;
        }
        if seen[j] {
            proof {
                let g = choose|g: int| 0 <= g < h && helpers@[g] == j;
                assert(helpers@[g] == helpers@[h as int]);
                assert(!helpers_ok(p@, helpers@, target as int));
            }
            return false;
        }
        seen.set(j, true);
        proof {
            let t = helpers@.take(h + 1);
            assert forall|a: int, b: int| 0 <= a < b < t.len() implies #[trigger] t[a] != #[trigger] t[b] by {
                if b == h {
                    assert(!seen@.update(j as int, false)[t[a] as int] || t[a] != j);
                    assert(helpers@.take(h as int)[a] == t[a]);
                } else {
                    assert(helpers@.take(h as int)[a] == t[a]);
                    assert(helpers@.take(h as int)[b] == t[b]);
                }
            }
            assert forall|a: int| 0 <= a < t.len() implies #[trigger] t[a] < p@.ell && t[a] != target by {
                if a < h {
                    assert(helpers@.take(h as int)[a] == t[a]);
                }
            }
        }
        h = h + 1;
    }
    assert(helpers@.take(h as int) == helpers@);
    true
}

/// Weights that carry a product row from the helper groups to the target group.
pub fn row_weights(domain: &Domain, helpers: &[usize], target: usize) -> (res: Result<Vec<Fe>>)
    ensures
        res is Ok <==> domain.parameters()@.b == 0 && helpers.len() == domain.parameters()@.a
            && target < domain.parameters()@.ell && helpers_ok(
            domain.parameters()@,
            helpers@,
            target as int,
        ),
        !(domain.parameters()@.b == 0 && helpers.len() == domain.parameters()@.a && target
            < domain.parameters()@.ell) ==> (res matches Err(e) && e.0@ == "row helper count"@),
        res matches Err(e) ==> (e.0@ == "row helper count"@ || e.0@ == "row helper indices"@),
        res matches Ok(w) ==> {
            let v = domain.parameters()@;
            let xs = helper_labels(v, helpers@);
            let tg = gamma_seq(v)[target as int];
            &&& w.len() == helpers.len()
            &&& forall|s: int|
                0 <= s < w.len() ==> (row_weight_den(xs, tg, s) == 0 ==> #[trigger] w@[s]@ == 0)
                    && (row_weight_den(xs, tg, s) != 0 ==> (w@[s]@ * row_weight_den(xs, tg, s))
                    % modulus() == prod(xs, tg) % modulus())
        },
{
    let p = domain.params();
    let ghost v = p@;
    require(p.b() == 0 && helpers.len() == p.a() && target < p.ell(), "row helper count")?;
    require(check_helpers(p, helpers, target), "row helper indices")?;
    let gammas = domain.gammas();
    let ghost gs = fes(gammas@);
    let mut xs: Vec<Fe> = Vec::new();
    let mut h: usize = 0;
    while h < helpers.len()
        invariant
            gs == fes(gammas@),
            gs == gamma_seq(v),
            gammas.len() == v.ell,
            helpers_ok(v, helpers@, target as int),
            h <= helpers.len(),
            fes(xs@) == helper_labels(v, helpers@).take(h as int),
        decreases helpers.len() - h,
    {
        let g = gammas[helpers[h]];
        let ghost old_x = fes(xs@);
        xs.push(g);
        assert(fes(xs@) == old_x.push(g@));
        assert(helper_labels(v, helpers@).take(h + 1) == helper_labels(v, helpers@).take(h as int).push(g@));
        h = h + 1;
    }
    let ghost xv = helper_labels(v, helpers@);
    assert(xv.take(h as int) == xv);
    proof {
        crate::domain::lemma_valid_bounds(v);
        lemma_distinct_labels(v, helpers@, target as int);
    }
    let z = match vanishing(&xs) {
        Ok(z) => z,
        Err(e) => {
            return Err(e);
        },
    };
    let tg = gammas[target];
    let numerator = evaluate(&z, tg);
    let mut weights: Vec<Fe> = Vec::new();
    let mut s: usize = 0;
    proof {
        crate::polynomial::lemma_psum_vanish(xv, 0);
    }
    while s < xs.len()
        invariant
            fes(xs@) == xv,
            xs.len() >= 1,
            z.len() == xs.len() + 1,
            crate::polynomial::cong(fes(z@), crate::polynomial::vanish(xv)),
            tg@ == gamma_seq(v)[target as int],
            s <= xs.len(),
            weights.len() == s,
            forall|t: int| 0 <= t < s ==> #[trigger] weights@[t]@ == row_weight_den(xv, tg@, t),
        decreases xs.len() - s,
    {
        let x = xs[s];
        let (q, c) = divide_linear(&z, x);
        proof {
            lemma_vanish_remove(xv, s as int);
            lemma_quotient_is_cofactor(fes(z@), fes(q@), xv, s as int, c@);
        }
        let den = tg.sub(x).mul(evaluate(&q, x));
        proof {
            let m = modulus();
            Fe::lemma_range(tg);
            Fe::lemma_range(x);
            lemma_mod_add_multiples_vanish(tg@ - x@, m);
            assert(tg@ + m - x@ == m + (tg@ - x@));
            lemma_mul_mod_noop_general(tg@ - x@, prod(xv.remove(s as int), x@) % m, m);
        }
        weights.push(den);
        s = s + 1;
    }
    let ghost dens = weights@;
    fr_batch_inversion(&mut weights);
    let mut s: usize = 0;
    while s < weights.len()
        invariant
            weights.len() == dens.len(),
            dens.len() == xv.len(),
            forall|t: int| 0 <= t < dens.len() ==> #[trigger] dens[t]@ == row_weight_den(xv, tg@, t),
            numerator@ == crate::polynomial::prod(xv, tg@) % modulus(),
            s <= weights.len(),
            forall|t: int|
                s <= t < dens.len() ==> (dens[t]@ == 0 ==> #[trigger] weights@[t]@ == 0) && (dens[t]@ != 0
                    ==> (dens[t]@ * weights@[t]@) % modulus() == 1),
            forall|t: int|
                0 <= t < s ==> (row_weight_den(xv, tg@, t) == 0 ==> #[trigger] weights@[t]@ == 0) && (
                row_weight_den(xv, tg@, t) != 0 ==> (weights@[t]@ * row_weight_den(xv, tg@, t))
                    % modulus() == prod(xv, tg@) % modulus()),
        decreases weights.len() - s,
    {
        let w = weights[s].mul(numerator);
        proof {
            let m = modulus();
            let d = dens[s as int]@;
            let iv = weights@[s as int]@;
            if d == 0 {
                assert(iv == 0);
                assert(iv * numerator@ == 0) by (nonlinear_arith)
                    requires
                        iv == 0,
                ;
            } else {
                lemma_mul_mod_noop_general(iv * numerator@, d, m);
                assert((iv * numerator@) * d == numerator@ * (d * iv)) by (nonlinear_arith);
                lemma_mul_mod_noop_general(numerator@, d * iv, m);
                assert(numerator@ * 1 == numerator@);
                Fe::lemma_range(numerator);
                lemma_small_mod(numerator@ as nat, m as nat);
            }
        }
        let ghost old_w = weights@;
        weights.set(s, w);
        s = s + 1;
    }
    Ok(weights)
}

/// Distinct helper groups have distinct labels.
proof fn lemma_distinct_labels(v: ParamsView, helpers: Seq<usize>, target: int)
    requires
        helpers_ok(v, helpers, target),
        crate::polynomial::distinct(gamma_seq(v)),
    ensures
        crate::polynomial::distinct(helper_labels(v, helpers)),
{
    let xs = helper_labels(v, helpers);
    assert forall|a: int, b: int| 0 <= a < b < xs.len() implies xs[a] != xs[b] by {
        let ja = helpers[a] as int;
        let jb = helpers[b] as int;
        assert(ja != jb);
        if ja < jb {
            assert(gamma_seq(v)[ja] != gamma_seq(v)[jb]);
        } else {
            assert(gamma_seq(v)[jb] != gamma_seq(v)[ja]);
        }
    }
}

/// The `(index, value)` pairs received for group `j` among the first `upto`, in order.
pub open spec fn group_entries(rs: Seq<AcceptedValue>, j: int, upto: int) -> Seq<(usize, Fe)>
    decreases upto,
{
    if upto <= 0 {
        Seq::empty()
    } else {
        let rest = group_entries(rs, j, upto - 1);
        if rs[upto - 1].group == j {
            rest.push((rs[upto - 1].index, rs[upto - 1].value))
        } else {
            rest
        }
    }
}

/// The groups among `0..upto` that received at least `r` values, in ascending order.
pub open spec fn complete_groups(v: ParamsView, rs: Seq<AcceptedValue>, upto: int) -> Seq<int>
    decreases upto,
{
    if upto <= 0 {
        Seq::empty()
    } else {
        let rest = complete_groups(v, rs, upto - 1);
        if group_entries(rs, upto - 1, rs.len() as int).len() >= v.r {
            rest.push(upto - 1)
        } else {
            rest
        }
    }
}

/// Entries of a group come from received values whose indices are in range.
proof fn lemma_group_entries_in_range(rs: Seq<AcceptedValue>, j: int, upto: int, m: int)
    requires
        0 <= upto <= rs.len(),
        forall|t: int| 0 <= t < rs.len() ==> #[trigger] rs[t].index < m,
    ensures
        forall|e: int| 0 <= e < group_entries(rs, j, upto).len() ==> (#[trigger] group_entries(rs, j, upto)[e]).0 < m,
    decreases upto,
{
    if upto > 0 {
        lemma_group_entries_in_range(rs, j, upto - 1, m);
        assert(rs[upto - 1].index < m);
        let g = group_entries(rs, j, upto);
        let g0 = group_entries(rs, j, upto - 1);
        if rs[upto - 1].group == j {
            assert(g == g0.push((rs[upto - 1].index, rs[upto - 1].value)));
            assert forall|e: int| 0 <= e < g.len() implies (#[trigger] g[e]).0 < m by {
                if e < g0.len() {
                    assert(g[e] == g0[e]);
                }
            }
        }
    }
}

/// Received values grouped by their group, in the order received.
fn group_received(p: Params, received: &[AcceptedValue]) -> (groups: Vec<Vec<(usize, Fe)>>)
    requires
        forall|t: int| 0 <= t < received.len() ==> #[trigger] received@[t].group < p@.ell,
    ensures
        groups.len() == p@.ell,
        forall|j: int| 0 <= j < p@.ell ==> #[trigger] groups@[j]@ == group_entries(received@, j, received.len() as int),
{
    let ell = p.ell();
    let mut groups: Vec<Vec<(usize, Fe)>> = Vec::new();
    let mut j: usize = 0;
    while j < ell
        invariant
            j <= ell,
            groups.len() == j,
            forall|a: int| 0 <= a < j ==> #[trigger] groups@[a]@ == Seq::<(usize, Fe)>::empty(),
        decreases ell - j,
    {
        groups.push(Vec::new());
        j = j + 1;
    }
    let mut t: usize = 0;
    while t < received.len()
        invariant
            ell == p@.ell,
            groups.len() == ell,
            forall|u: int| 0 <= u < received.len() ==> #[trigger] received@[u].group < p@.ell,
            t <= received.len(),
            forall|a: int| 0 <= a < ell ==> #[trigger] groups@[a]@ == group_entries(received@, a, t as int),
        decreases received.len() - t,
    {
        let r = received[t];
        assert(r.group < ell);
        groups[r.group].push((r.index, r.value));
        t = t + 1;
    }
    groups
}

/// Recover with the group shortcut: interpolate `a` completeable groups and carry their
/// coefficients to the other groups by row weights.
pub fn recover_groups(domain: &Domain, scheme: Scheme, received: &[AcceptedValue]) -> (res: Result<Recovered>)
    ensures
        domain.parameters()@.b != 0 ==> (res matches Err(e) && e.0@ == "group shortcut requires b=0"@),
        domain.parameters()@.b == 0 && !received_ok(domain.parameters()@, received@) ==> res is Err,
        domain.parameters()@.b == 0 && received_ok(domain.parameters()@, received@) && complete_groups(
            domain.parameters()@,
            received@,
            domain.parameters()@.ell as int,
        ).len() < domain.parameters()@.a ==> (res matches Err(e) && e.0@ == "insufficient completeable groups"@),
        res matches Ok(rec) ==> {
            let v = domain.parameters()@;
            &&& agrees(rec.values_view(), received@)
            &&& rec.values_view() == codeword_values(v, scheme, rec.locals_view())
            &&& rec.message_view() == locals_message(v, rec.locals_view())
        },
{
    let p = domain.params();
    let ghost v = p@;
    require(p.b() == 0, "group shortcut requires b=0")?;
    validate_received(p, received)?;
    let ell = p.ell();
    let a = p.a();
    let r = p.r();
    let groups = group_received(p, received);
    let mut helpers: Vec<usize> = Vec::new();
    let mut j: usize = 0;
    while j < ell
        invariant
            v == p@,
            ell == v.ell,
            a == v.a,
            r == v.r,
            groups.len() == ell,
            forall|x: int| 0 <= x < ell ==> #[trigger] groups@[x]@ == group_entries(received@, x, received.len() as int),
            j <= ell,
            helpers@.len() <= a,
            helpers@.len() < a ==> helpers@.map_values(|h: usize| h as int) == complete_groups(v, received@, j as int),
            helpers@.len() == a ==> helpers@.map_values(|h: usize| h as int) == complete_groups(v, received@, j as int).take(a as int),
            helpers@.len() == a ==> complete_groups(v, received@, j as int).len() >= a,
            forall|h: int| 0 <= h < helpers.len() ==> #[trigger] helpers@[h] < j && groups@[helpers@[h] as int].len() >= r,
            forall|h: int, g: int| 0 <= h < g < helpers.len() ==> #[trigger] helpers@[h] < #[trigger] helpers@[g],
        decreases ell - j,
    {
        let ghost before = helpers@;
        if groups[j].len() >= r && helpers.len() < a {
            helpers.push(j);
            assert(helpers@.map_values(|h: usize| h as int) == before.map_values(|h: usize| h as int).push(j as int));
        }
        proof {
            let cg = complete_groups(v, received@, j + 1);
            assert(groups@[j as int]@ == group_entries(received@, j as int, received.len() as int));
            if before.len() == a {
                assert(cg.take(a as int) == complete_groups(v, received@, j as int).take(a as int)) by {
                    if groups@[j as int].len() >= r {
                        assert(cg == complete_groups(v, received@, j as int).push(j as int));
                        assert(complete_groups(v, received@, j as int).len() >= a);
                    }
                }
            }
        }
        j = j + 1;
    }
    proof {
        if helpers.len() < a {
            assert(helpers@.map_values(|h: usize| h as int).len() == helpers.len());
        }
    }
    require(helpers.len() == a, "insufficient completeable groups")?;
    let ghost enough = complete_groups(v, received@, ell as int).len() >= a;
    assert(enough);
    proof {
        assert forall|t: int| 0 <= t < received.len() implies #[trigger] received@[t].index < v.m by {
            assert(in_grid(v, received@[t].group as int, received@[t].index as int));
        }
        assert forall|x: int, e: int| 0 <= x < ell && 0 <= e < groups@[x].len() implies (#[trigger] groups@[x]@[e]).0 < v.m by {
            lemma_group_entries_in_range(received@, x, received.len() as int, v.m as int);
        }
    }
    let mut known: Vec<Vec<Fe>> = Vec::new();
    let mut h: usize = 0;
    while h < a
        invariant
            v == p@,
            p == domain.parameters(),
            enough,
            enough == (complete_groups(v, received@, ell as int).len() >= a),
            v.b == 0,
            a == v.a,
            r == v.r,
            ell == v.ell,
            helpers.len() == a,
            groups.len() == ell,
            forall|x: int| 0 <= x < helpers.len() ==> #[trigger] helpers@[x] < ell && groups@[helpers@[x] as int].len() >= r,
            forall|x: int, e: int| 0 <= x < ell && 0 <= e < groups@[x].len() ==> (#[trigger] groups@[x]@[e]).0 < v.m,
            h <= a,
            known.len() == h,
            forall|x: int| 0 <= x < h ==> (#[trigger] known@[x]).len() == r,
        decreases a - h,
    {
        let j = helpers[h];
        let entries = &groups[j];
        let mut xs: Vec<Fe> = Vec::new();
        let mut ys: Vec<Fe> = Vec::new();
        let mut e: usize = 0;
        while e < r
            invariant
                v == p@,
                p == domain.parameters(),
                enough,
                enough == (complete_groups(v, received@, v.ell as int).len() >= v.a),
                v.b == 0,
                j < v.ell,
                r <= entries.len(),
                forall|x: int| 0 <= x < entries.len() ==> (#[trigger] entries@[x]).0 < v.m,
                e <= r,
                xs.len() == e,
                ys.len() == e,
            decreases r - e,
        {
            let (i, value) = entries[e];
            let x = domain.point(scheme, j, i)?;
            xs.push(x);
            ys.push(value);
            e = e + 1;
        }
        let poly = interpolate(&xs, &ys)?;
        known.push(poly);
        h = h + 1;
    }
    let mut locals: Vec<Vec<Fe>> = Vec::new();
    let mut j: usize = 0;
    while j < ell
        invariant
            v == p@,
            p == domain.parameters(),
            enough,
            enough == (complete_groups(v, received@, ell as int).len() >= a),
            a == v.a,
            r == v.r,
            ell == v.ell,
            v.b == 0,
            helpers.len() == a,
            known.len() == a,
            forall|x: int| 0 <= x < a ==> (#[trigger] known@[x]).len() == r,
            j <= ell,
            locals.len() == j,
            forall|x: int| 0 <= x < j ==> (#[trigger] locals@[x]).len() == r,
        decreases ell - j,
    {
        let mut pos: usize = 0;
        let mut found = false;
        while pos < a && !found
            invariant
                pos <= a,
                helpers.len() == a,
                found ==> pos < a && helpers@[pos as int] == j,
            decreases a - pos + if found { 0int } else { 1int },
        {
            if helpers[pos] == j {
                found = true;
            } else {
                pos = pos + 1;
            }
        }
        if found {
            locals.push(crate::field::copy_elements(known[pos].as_slice()));
        } else {
            let weights = row_weights(domain, helpers.as_slice(), j)?;
            let mut coefficients: Vec<Fe> = vec![Fe::zero(); r];
            let mut h: usize = 0;
            while h < a
                invariant
                    known.len() == a,
                    forall|x: int| 0 <= x < a ==> (#[trigger] known@[x]).len() == r,
                    weights.len() == a,
                    coefficients.len() == r,
                    h <= a,
                decreases a - h,
            {
                let w = weights[h];
                let poly = &known[h];
                let mut i: usize = 0;
                while i < r
                    invariant
                        poly.len() == r,
                        coefficients.len() == r,
                        i <= r,
                    decreases r - i,
                {
                    let c = coefficients[i].add(w.mul(poly[i]));
                    coefficients.set(i, c);
                    i = i + 1;
                }
                h = h + 1;
            }
            locals.push(coefficients);
        }
        j = j + 1;
    }
    proof {
        assert forall|t: int| 0 <= t < received.len() implies in_grid(
            v,
            #[trigger] received@[t].group as int,
            received@[t].index as int,
        ) by {}
    }
    finish(domain, scheme, locals, received)
}

/// Received `(group, value)` pairs per row, in the order received.
fn row_received(p: Params, received: &[AcceptedValue]) -> (rows: Vec<Vec<(usize, Fe)>>)
    requires
        forall|t: int| 0 <= t < received.len() ==> #[trigger] received@[t].index < p@.m,
        forall|t: int| 0 <= t < received.len() ==> #[trigger] received@[t].group < p@.ell,
    ensures
        rows.len() == p@.m,
        forall|i: int, e: int| 0 <= i < p@.m && 0 <= e < rows@[i].len() ==> (#[trigger] rows@[i]@[e]).0 < p@.ell,
{
    let m = p.m();
    let mut rows: Vec<Vec<(usize, Fe)>> = Vec::new();
    let mut i: usize = 0;
    while i < m
        invariant
            i <= m,
            rows.len() == i,
            forall|x: int| 0 <= x < i ==> (#[trigger] rows@[x]).len() == 0,
        decreases m - i,
    {
        rows.push(Vec::new());
        i = i + 1;
    }
    let mut t: usize = 0;
    while t < received.len()
        invariant
            m == p@.m,
            rows.len() == m,
            forall|u: int| 0 <= u < received.len() ==> #[trigger] received@[u].index < p@.m,
            forall|u: int| 0 <= u < received.len() ==> #[trigger] received@[u].group < p@.ell,
            t <= received.len(),
            forall|x: int, e: int| 0 <= x < m && 0 <= e < rows@[x].len() ==> (#[trigger] rows@[x]@[e]).0 < p@.ell,
        decreases received.len() - t,
    {
        let r = received[t];
        let ghost before = rows@;
        rows[r.index].push((r.group, r.value));
        proof {
            assert forall|x: int, e: int| 0 <= x < m && 0 <= e < rows@[x].len() implies (#[trigger] rows@[x]@[e]).0 < p@.ell by {
                if x == r.index && e == before[x].len() {
                } else {
                    assert(rows@[x]@[e] == before[x]@[e]);
                }
            }
        }
        t = t + 1;
    }
    rows
}

/// The first `r` coefficients of `c`.
fn prefix(c: &Vec<Fe>, r: usize) -> (out: Vec<Fe>)
    requires
        r <= c.len(),
    ensures
        out@ == c@.take(r as int),
{
    let mut out: Vec<Fe> = Vec::new();
    let mut i: usize = 0;
    while i < r
        invariant
            r <= c.len(),
            i <= r,
            out@ == c@.take(i as int),
        decreases r - i,
    {
        out.push(c[i]);
        i = i + 1;
        assert(out@ == c@.take(i as int));
    }
    out
}

/// Recover the product code row by row: interpolate each row across groups, then
/// read each group's coefficients back from its column.
pub fn recover_product_rows(domain: &Domain, received: &[AcceptedValue]) -> (res: Result<Recovered>)
    ensures
        domain.parameters()@.b != 0 ==> (res matches Err(e) && e.0@ == "product residual unsupported"@),
        domain.parameters()@.b == 0 && !received_ok(domain.parameters()@, received@) ==> res is Err,
        res matches Ok(rec) ==> {
            let v = domain.parameters()@;
            &&& agrees(rec.values_view(), received@)
            &&& rec.values_view() == codeword_values(v, Scheme::Product, rec.locals_view())
            &&& rec.message_view() == locals_message(v, rec.locals_view())
        },
{
    let p = domain.params();
    let ghost v = p@;
    require(p.b() == 0, "product residual unsupported")?;
    validate_received(p, received)?;
    proof {
        lemma_valid_bounds_here(v);
        crate::domain::lemma_valid_bounds(v);
        assert forall|t: int| 0 <= t < received.len() implies #[trigger] received@[t].index < v.m && received@[t].group < v.ell by {
            assert(in_grid(v, received@[t].group as int, received@[t].index as int));
        }
    }
    let ell = p.ell();
    let m = p.m();
    let a = p.a();
    let r = p.r();
    let rows = row_received(p, received);
    let gammas = domain.gammas();
    let mut values: Vec<Vec<Fe>> = Vec::new();
    let mut j: usize = 0;
    while j < ell
        invariant
            j <= ell,
            values.len() == j,
            forall|x: int| 0 <= x < j ==> (#[trigger] values@[x]).len() == m,
        decreases ell - j,
    {
        values.push(vec![Fe::zero(); m]);
        j = j + 1;
    }
    let mut index: usize = 0;
    while index < m
        invariant
            v == p@,
            p == domain.parameters(),
            v.b == 0,
            ell == v.ell,
            m == v.m,
            a == v.a,
            a <= ell,
            rows.len() == m,
            gammas.len() == ell,
            forall|i: int, e: int| 0 <= i < m && 0 <= e < rows@[i].len() ==> (#[trigger] rows@[i]@[e]).0 < ell,
            values.len() == ell,
            forall|x: int| 0 <= x < ell ==> (#[trigger] values@[x]).len() == m,
            index <= m,
        decreases m - index,
    {
        let row = &rows[index];
        require(row.len() >= a, "insufficient row values")?;
        let mut xs: Vec<Fe> = Vec::new();
        let mut ys: Vec<Fe> = Vec::new();
        let mut e: usize = 0;
        while e < a
            invariant
                a <= row.len(),
                gammas.len() == ell,
                forall|x: int| 0 <= x < row.len() ==> (#[trigger] row@[x]).0 < ell,
                e <= a,
                xs.len() == e,
                ys.len() == e,
            decreases a - e,
        {
            let (g, value) = row[e];
            xs.push(gammas[g]);
            ys.push(value);
            e = e + 1;
        }
        let poly = interpolate(&xs, &ys)?;
        let mut j: usize = 0;
        while j < ell
            invariant
                ell == v.ell,
                gammas.len() == ell,
                values.len() == ell,
                index < m,
                forall|x: int| 0 <= x < ell ==> (#[trigger] values@[x]).len() == m,
                j <= ell,
            decreases ell - j,
        {
            let x = evaluate(&poly, gammas[j]);
            values[j].set(index, x);
            j = j + 1;
        }
        index = index + 1;
    }
    let mut locals: Vec<Vec<Fe>> = Vec::new();
    let mut j: usize = 0;
    while j < ell
        invariant
            v == p@,
            v.valid(),
            p == domain.parameters(),
            v.b == 0,
            ell == v.ell,
            m == v.m,
            r == v.r,
            r < m,
            values.len() == ell,
            forall|x: int| 0 <= x < ell ==> (#[trigger] values@[x]).len() == m,
            j <= ell,
            locals.len() == j,
            forall|x: int| 0 <= x < j ==> (#[trigger] locals@[x]).len() == r,
        decreases ell - j,
    {
        let coeffs = crate::domain::fr_ifft(m, values[j].as_slice());
        let mut high_zero = true;
        let mut k: usize = r;
        while k < m
            invariant
                coeffs.len() == m,
                r <= k <= m,
            decreases m - k,
        {
            if !coeffs[k].is_zero() {
                high_zero = false;
            }
            k = k + 1;
        }
        require(high_zero, "repaired column degree")?;
        locals.push(prefix(&coeffs, r));
        j = j + 1;
    }
    proof {
        assert forall|t: int| 0 <= t < received.len() implies in_grid(
            v,
            #[trigger] received@[t].group as int,
            received@[t].index as int,
        ) by {}
    }
    finish(domain, Scheme::Product, locals, received)
}

/// Recover by interpolating the global polynomial from the first `degree + 1` received
/// values and restricting it to every group.
pub fn recover_global(domain: &Domain, received: &[AcceptedValue]) -> (res: Result<Recovered>)
    ensures
        !received_ok(domain.parameters()@, received@) ==> res is Err,
        received_ok(domain.parameters()@, received@) && received.len() <= domain.parameters()@.degree()
            ==> (res matches Err(e) && e.0@ == "insufficient global interpolation values"@),
        res matches Ok(rec) ==> {
            let v = domain.parameters()@;
            &&& agrees(rec.values_view(), received@)
            &&& rec.values_view() == codeword_values(v, Scheme::Lrdas, rec.locals_view())
            &&& rec.message_view() == locals_message(v, rec.locals_view())
        },
{
    let p = domain.params();
    let ghost v = p@;
    validate_received(p, received)?;
    proof {
        lemma_valid_bounds_here(v);
    }
    let degree = p.degree();
    require(received.len() > degree, "insufficient global interpolation values")?;
    let mut xs: Vec<Fe> = Vec::new();
    let mut ys: Vec<Fe> = Vec::new();
    let mut t: usize = 0;
    while t <= degree
        invariant
            v == p@,
            p == domain.parameters(),
            received_ok(v, received@),
            degree < received.len(),
            t <= degree + 1,
            xs.len() == t,
            ys.len() == t,
        decreases degree + 1 - t,
    {
        let r = received[t];
        assert(in_grid(v, r.group as int, r.index as int));
        let x = domain.point(Scheme::Lrdas, r.group, r.index)?;
        xs.push(x);
        ys.push(r.value);
        t = t + 1;
    }
    let f = interpolate(&xs, &ys)?;
    let locals = local_coefficients(domain, &f)?;
    proof {
        assert forall|u: int| 0 <= u < received.len() implies in_grid(
            v,
            #[trigger] received@[u].group as int,
            received@[u].index as int,
        ) by {}
    }
    finish(domain, Scheme::Lrdas, locals, received)
}

/// Coefficient `t` of the Lagrange basis polynomial of node `s`:
/// `prod_{u != s} (X - x_u) / prod_{u != s} (x_s - x_u)`.
pub open spec fn basis_coef(nodes: Seq<int>, s: int, t: int) -> int {
    ((coef(crate::polynomial::vanish(nodes.remove(s)), t) % modulus()) * inv_of(
        prod(nodes.remove(s), nodes[s]) % modulus(),
    )) % modulus()
}

/// `sum_{s < n} basis_s[c / m] src_s[c % m]`.
pub open spec fn source_terms(nodes: Seq<int>, src: Seq<Seq<int>>, c: int, m: int, n: int) -> int
    decreases n,
{
    if n <= 0 {
        0
    } else {
        source_terms(nodes, src, c, m, n - 1) + basis_coef(nodes, n - 1, c / m) * coef(
            src[n - 1],
            c % m,
        )
    }
}

/// Coefficient `c` of the global polynomial of a message: the Lagrange interpolation of
/// the source groups at the source labels in `Y = X^m`, plus the vanishing polynomial of
/// the source labels times the residual.
pub open spec fn global_coef(v: ParamsView, nodes: Seq<int>, src: Seq<Seq<int>>, res: Seq<int>, c: int) -> int {
    (source_terms(nodes, src, c, v.m as int, v.a as int) + (coef(crate::polynomial::vanish(nodes), c / (v.m as int))
        % modulus()) * coef(res, c % (v.m as int))) % modulus()
}

/// The normalized Lagrange basis polynomial of node `s`.
fn lagrange_basis(z: &Vec<Fe>, nodes: &Vec<Fe>, s: usize) -> (res: Result<Vec<Fe>>)
    requires
        s < nodes.len(),
        z.len() == nodes.len() + 1,
        crate::polynomial::distinct(fes(nodes@)),
        crate::polynomial::cong(fes(z@), crate::polynomial::vanish(fes(nodes@))),
    ensures
        res is Ok <==> prod(fes(nodes@).remove(s as int), nodes@[s as int]@) % modulus() != 0,
        res matches Err(e) ==> e.0@ == "basis denominator"@,
        res matches Ok(basis) ==> basis.len() == nodes.len() && forall|t: int|
            0 <= t < basis.len() ==> #[trigger] basis@[t]@ == basis_coef(fes(nodes@), s as int, t),
{
    let ghost xv = fes(nodes@);
    let x = nodes[s];
    let (q, c) = divide_linear(z.as_slice(), x);
    proof {
        lemma_vanish_remove(xv, s as int);
        lemma_quotient_is_cofactor(fes(z@), fes(q@), xv, s as int, c@);
        crate::polynomial::lemma_psum_vanish(xv.remove(s as int), 0);
    }
    let den = evaluate(q.as_slice(), x);
    let inv = match den.inverse() {
        Some(inv) => inv,
        None => {
            return Err(Error("basis denominator".to_owned()));
        },
    };
    proof {
        Fe::lemma_range(inv);
        lemma_inv_of(den@, inv@);
    }
    let mut basis: Vec<Fe> = Vec::new();
    let mut t: usize = 0;
    while t < q.len()
        invariant
            xv == fes(nodes@),
            q.len() == nodes.len(),
            crate::polynomial::cong(fes(q@), crate::polynomial::vanish(xv.remove(s as int))),
            inv@ == inv_of(prod(xv.remove(s as int), x@) % modulus()),
            den@ == prod(xv.remove(s as int), x@) % modulus(),
            x@ == xv[s as int],
            t <= q.len(),
            basis.len() == t,
            forall|u: int| 0 <= u < t ==> #[trigger] basis@[u]@ == basis_coef(xv, s as int, u),
        decreases q.len() - t,
    {
        let b = q[t].mul(inv);
        proof {
            let w = crate::polynomial::vanish(xv.remove(s as int));
            assert(fes(q@)[t as int] % modulus() == w[t as int] % modulus());
            Fe::lemma_range(q@[t as int]);
            lemma_small_mod(q@[t as int]@ as nat, modulus() as nat);
            assert(coef(w, t as int) == w[t as int]);
        }
        basis.push(b);
        t = t + 1;
    }
    Ok(basis)
}

/// Add `coeffs[t] row[i]` to `out[t m + i]` for every `t` and `i`.
fn accumulate(out: &mut Vec<Fe>, coeffs: &Vec<Fe>, row: &[Fe], m: usize)
    requires
        0 < m,
        row.len() <= m,
        row.len() > 0 ==> coeffs.len() * m <= old(out).len() + m - row.len(),
    ensures
        final(out).len() == old(out).len(),
        forall|c: int|
            0 <= c < old(out).len() ==> #[trigger] final(out)@[c]@ == (old(out)@[c]@ + coef(
                fes(coeffs@),
                c / (m as int),
            ) * coef(fes(row@), c % (m as int))) % modulus(),
{
    let ghost start = out@;
    let ghost cv = fes(coeffs@);
    let ghost rv = fes(row@);
    if row.len() == 0 {
        proof {
            assert forall|c: int| 0 <= c < start.len() implies #[trigger] out@[c]@ == (start[c]@
                + coef(cv, c / (m as int)) * coef(rv, c % (m as int))) % modulus() by {
                assert(coef(rv, c % (m as int)) == 0);
                assert(coef(cv, c / (m as int)) * 0 == 0);
                Fe::lemma_range(start[c]);
                lemma_small_mod(start[c]@ as nat, modulus() as nat);
            }
        }
        return;
    }
    let mut t: usize = 0;
    while t < coeffs.len()
        invariant
            0 < m,
            row.len() <= m,
            row.len() > 0,
            coeffs.len() * m <= start.len() + m - row.len(),
            cv == fes(coeffs@),
            rv == fes(row@),
            out.len() == start.len(),
            t <= coeffs.len(),
            forall|c: int|
                0 <= c < start.len() ==> #[trigger] out@[c]@ == if c / (m as int) < t {
                    (start[c]@ + coef(cv, c / (m as int)) * coef(rv, c % (m as int))) % modulus()
                } else {
                    start[c]@
                },
        decreases coeffs.len() - t,
    {
        proof {
            assert(t * m + row.len() <= start.len()) by (nonlinear_arith)
                requires
                    t < coeffs.len(),
                    coeffs.len() * m <= start.len() + m - row.len(),
                    m > 0,
            {
                assert((t + 1) * m <= coeffs.len() * m) by (nonlinear_arith)
                    requires
                        t + 1 <= coeffs.len(),
                        m > 0,
                ;
            }
        }
        let w = coeffs[t];
        let mut i: usize = 0;
        while i < row.len()
            invariant
                0 < m,
                row.len() <= m,
                t < coeffs.len(),
                t * m + row.len() <= start.len(),
                cv == fes(coeffs@),
                rv == fes(row@),
                w == coeffs@[t as int],
                out.len() == start.len(),
                i <= row.len(),
                forall|c: int|
                    0 <= c < start.len() ==> #[trigger] out@[c]@ == if c / (m as int) < t || (c
                        / (m as int) == t && c % (m as int) < i) {
                        (start[c]@ + coef(cv, c / (m as int)) * coef(rv, c % (m as int))) % modulus()
                    } else {
                        start[c]@
                    },
            decreases row.len() - i,
        {
            let c = t * m + i;
            proof {
                lemma_fundamental_div_mod_converse(c as int, m as int, t as int, i as int);
            }
            let upd = out[c].add(w.mul(row[i]));
            proof {
                let mm = modulus();
                lemma_add_mod_noop_right(out@[c as int]@, w@ * row@[i as int]@, mm);
                assert(coef(cv, t as int) == w@);
                assert(coef(rv, i as int) == row@[i as int]@);
            }
            let ghost before = out@;
            out.set(c, upd);
            proof {
                assert forall|d: int| 0 <= d < start.len() implies #[trigger] out@[d]@ == if d
                    / (m as int) < t || (d / (m as int) == t && d % (m as int) < i + 1) {
                    (start[d]@ + coef(cv, d / (m as int)) * coef(rv, d % (m as int))) % modulus()
                } else {
                    start[d]@
                } by {
                    if d != c {
                        assert(out@[d] == before[d]);
                        if d / (m as int) == t && d % (m as int) == i {
                            lemma_fundamental_div_mod(d, m as int);
                            assert((m as int) * (t as int) == (t as int) * (m as int)) by (nonlinear_arith);
                            assert(d == c);
                        }
                    }
                }
            }
            i = i + 1;
        }
        proof {
            assert forall|c: int| 0 <= c < start.len() implies #[trigger] out@[c]@ == if c / (m as int)
                < t + 1 {
                (start[c]@ + coef(cv, c / (m as int)) * coef(rv, c % (m as int))) % modulus()
            } else {
                start[c]@
            } by {
                lemma_mod_bound(c, m as int);
                if c / (m as int) == t && c % (m as int) >= row.len() {
                    assert(coef(rv, c % (m as int)) == 0);
                    assert(coef(cv, c / (m as int)) * 0 == 0);
                    Fe::lemma_range(start[c]);
                    lemma_small_mod(start[c]@ as nat, modulus() as nat);
                }
            }
        }
        t = t + 1;
    }
    proof {
        assert forall|c: int| 0 <= c < start.len() implies #[trigger] out@[c]@ == (start[c]@ + coef(
            cv,
            c / (m as int),
        ) * coef(rv, c % (m as int))) % modulus() by {
            if c / (m as int) >= t {
                assert(coef(cv, c / (m as int)) == 0);
                assert(0 * coef(rv, c % (m as int)) == 0);
                Fe::lemma_range(start[c]);
                lemma_small_mod(start[c]@ as nat, modulus() as nat);
            }
        }
    }
}

/// The global polynomial of a message: source groups interpolated across the source
/// labels in `Y = X^m`, plus the source labels' vanishing polynomial times the residual.
pub fn global_from_message(domain: &Domain, message: &[Fe]) -> (res: Result<Vec<Fe>>)
    ensures
        ({
            let v = domain.parameters()@;
            let nodes = gamma_seq(v).take(v.a as int);
            res is Ok <==> message.len() == v.k() && (v.b == 0 || outer_value(v, v.a as int) != 0)
                && forall|s: int| 0 <= s < v.a ==> #[trigger] prod(nodes.remove(s), nodes[s]) % modulus() != 0
        }),
        res matches Err(e) ==> (e.0@ == "message dimension"@ || e.0@ == "residual weight"@ || e.0@
            == "basis denominator"@),
        res matches Ok(out) ==> ({
            let v = domain.parameters()@;
            let nodes = gamma_seq(v).take(v.a as int);
            let mv = fes(message@);
            &&& out.len() == v.degree() + 1
            &&& forall|c: int|
                0 <= c < out.len() ==> #[trigger] out@[c]@ == global_coef(
                    v,
                    nodes,
                    crate::protocol::message_sources(v, mv),
                    crate::protocol::message_residual(v, domain.weight_table(), mv),
                    c,
                )
        }),
{
    let p = domain.params();
    let ghost v = p@;
    let ghost mv = fes(message@);
    let polys = crate::protocol::MessagePolys::new(domain, message)?;
    proof {
        crate::domain::lemma_valid_bounds(v);
    }
    let a = p.a();
    let m = p.m();
    let r = p.r();
    let b = p.b();
    let gammas = domain.gammas();
    let mut nodes: Vec<Fe> = Vec::new();
    let mut s: usize = 0;
    while s < a
        invariant
            a == v.a,
            a <= gammas.len(),
            s <= a,
            fes(nodes@) == fes(gammas@).take(s as int),
        decreases a - s,
    {
        let ghost before = fes(nodes@);
        nodes.push(gammas[s]);
        assert(fes(nodes@) == before.push(gammas@[s as int]@));
        assert(fes(gammas@).take(s + 1) == fes(gammas@).take(s as int).push(gammas@[s as int]@));
        s = s + 1;
    }
    let ghost nv = fes(nodes@);
    assert(nv == gamma_seq(v).take(v.a as int));
    proof {
        assert(crate::polynomial::distinct(nv)) by {
            assert forall|x: int, y: int| 0 <= x < y < nv.len() implies nv[x] != nv[y] by {
                assert(gamma_seq(v)[x] != gamma_seq(v)[y]);
            }
        }
        crate::polynomial::lemma_psum_vanish(nv, 0);
    }
    let z = match vanishing(nodes.as_slice()) {
        Ok(z) => z,
        Err(e) => {
            return Err(e);
        },
    };
    let degree = p.degree();
    let mut out: Vec<Fe> = vec![Fe::zero(); degree + 1];
    let src = polys.source_coefficients();
    let ghost sv = crate::protocol::message_sources(v, mv);
    let ghost rv = crate::protocol::message_residual(v, domain.weight_table(), mv);
    assert(polys.source_view() == sv);
    proof {
        assert forall|c: int| 0 <= c < out.len() implies #[trigger] out@[c]@ == source_terms(nv, sv, c, m as int, 0)
            % modulus() by {
            lemma_small_mod(0, modulus() as nat);
        }
        assert(((a - 1) as int) * m + m == a * m) by (nonlinear_arith);
        assert(a * m <= degree + 1 + m - r);
    }
    let mut s: usize = 0;
    while s < a
        invariant
            v == p@,
            p == domain.parameters(),
            a == v.a,
            m == v.m,
            r == v.r,
            m > 0,
            r <= m,
            nv == fes(nodes@),
            nodes.len() == a,
            z.len() == a + 1,
            crate::polynomial::distinct(nv),
            crate::polynomial::cong(fes(z@), crate::polynomial::vanish(nv)),
            src.len() == a,
            forall|x: int| 0 <= x < a ==> #[trigger] fes(src@[x]@) == sv[x],
            sv == crate::protocol::message_sources(v, mv),
            out.len() == degree + 1,
            a * m <= degree + 1 + m - r,
            s <= a,
            forall|c: int| 0 <= c < out.len() ==> #[trigger] out@[c]@ == source_terms(nv, sv, c, m as int, s as int)
                % modulus(),
            forall|x: int| 0 <= x < s ==> #[trigger] prod(nv.remove(x), nv[x]) % modulus() != 0,
            nv == gamma_seq(v).take(v.a as int),
            message.len() == v.k(),
            v.b == 0 || outer_value(v, v.a as int) != 0,
            mv == fes(message@),
            v.valid(),
        decreases a - s,
    {
        let basis = match lagrange_basis(&z, &nodes, s) {
            Ok(b) => b,
            Err(e) => {
                assert(nodes@[s as int]@ == nv[s as int]);
                assert(prod(nv.remove(s as int), nv[s as int]) % modulus() == 0);
                return Err(e);
            },
        };
        assert(fes(src@[s as int]@) == sv[s as int]);
        assert(s * r + r <= mv.len()) by (nonlinear_arith)
            requires
                s < a,
                mv.len() == a * r + v.b,
        ;
        assert(sv[s as int].len() == r);
        let ghost before = out@;
        accumulate(&mut out, &basis, src[s].as_slice(), m);
        proof {
            assert forall|c: int| 0 <= c < out.len() implies #[trigger] out@[c]@ == source_terms(nv, sv, c, m as int, s + 1)
                % modulus() by {
                let t = c / (m as int);
                lemma_div_pos_is_pos(c, m as int);
                let st = source_terms(nv, sv, c, m as int, s as int);
                assert(coef(fes(basis@), t) == basis_coef(nv, s as int, t)) by {
                    if t >= a {
                        crate::polynomial::lemma_psum_vanish(nv.remove(s as int), 0);
                        assert(coef(crate::polynomial::vanish(nv.remove(s as int)), t) == 0);
                        assert(0int % modulus() == 0);
                        assert(0 * inv_of(prod(nv.remove(s as int), nv[s as int]) % modulus()) == 0);
                    }
                }
                assert(coef(fes(src@[s as int]@), c % (m as int)) == coef(sv[s as int], c % (m as int)));
                lemma_add_mod_noop(st, basis_coef(nv, s as int, t) * coef(sv[s as int], c % (m as int)), modulus());
                lemma_mod_twice(st, modulus());
                lemma_add_mod_noop(st % modulus(), basis_coef(nv, s as int, t) * coef(sv[s as int], c % (m as int)), modulus());
                lemma_mod_twice(basis_coef(nv, s as int, t) * coef(sv[s as int], c % (m as int)), modulus());
            }
        }
        s = s + 1;
    }
    let resid = polys.residual_coefficients();
    assert(fes(resid@) == rv);
    proof {
        if b > 0 {
            assert((a + 1) * m <= degree + 1 + m - b) by (nonlinear_arith)
                requires
                    v.b > 0 ==> v.degree() + 1 == v.a * v.m + v.b,
                    v.b > 0,
                    degree == v.degree(),
                    a == v.a,
                    m == v.m,
                    b == v.b,
            ;
        }
        assert(resid.len() == b);
    }
    let ghost before = out@;
    accumulate(&mut out, &z, resid, m);
    proof {
        assert forall|c: int| 0 <= c < out.len() implies #[trigger] out@[c]@ == global_coef(v, nv, sv, rv, c) by {
            let t = c / (m as int);
            lemma_div_pos_is_pos(c, m as int);
            assert(coef(fes(z@), t) == coef(crate::polynomial::vanish(nv), t) % modulus()) by {
                if t < z.len() {
                    assert(fes(z@)[t] % modulus() == crate::polynomial::vanish(nv)[t] % modulus());
                    Fe::lemma_range(z@[t]);
                    lemma_small_mod(z@[t]@ as nat, modulus() as nat);
                } else {
                    assert(0int % modulus() == 0);
                }
            }
            let st = source_terms(nv, sv, c, m as int, a as int);
            let term = (coef(crate::polynomial::vanish(nv), t) % modulus()) * coef(rv, c % (m as int));
            lemma_add_mod_noop(st, term, modulus());
            lemma_mod_twice(st, modulus());
            lemma_add_mod_noop(st % modulus(), term, modulus());
            lemma_mod_twice(term, modulus());
        }
    }
    Ok(out)
}

/// Whether `(j, index)` is erased by the diagonal pattern, after checking its dimensions.
pub fn erased(p: Params, j: usize, index: usize) -> (res: Result<bool>)
    ensures
        res is Ok <==> diagonal_applies(p@) && j < p@.ell && index < p@.m,
        res matches Ok(e) ==> e == diagonal_erased(p@, j as int, index as int),
        res matches Err(e) ==> e.0@ == "diagonal pattern dimensions"@,
{
    proof {
        use_type_invariant(&p);
    }
    require(
        p.b() == 0 && p.m() >= p.ell() && j < p.ell() && index < p.m(),
        "diagonal pattern dimensions",
    )?;
    let m = p.m();
    let ell = p.ell();
    assert(m * j <= 16384 * 4096) by (nonlinear_arith)
        requires
            m <= 16384,
            j < 4096,
    ;
    assert((m * j) / (ell as int) < m) by (nonlinear_arith)
        requires
            j < ell,
            ell > 0,
            m > 0,
    {
        vstd::arithmetic::div_mod::lemma_div_is_ordered(m * j, m * ell, ell as int);
        vstd::arithmetic::div_mod::lemma_div_multiples_vanish(m as int, ell as int);
        assert(m * j < m * ell);
    }
    Ok((index + m - m * j / ell) % m <= m - p.r())
}

/// The survivors of the diagonal pattern, in row-major order.
pub fn surviving_values(domain: &Domain, values: &[Vec<Fe>]) -> (res: Result<Vec<AcceptedValue>>)
    ensures
        res is Ok <==> codeword_shape(domain.parameters()@, values@) && diagonal_applies(
            domain.parameters()@,
        ),
        !codeword_shape(domain.parameters()@, values@) ==> (res matches Err(e) && e.0@
            == "codeword shape"@),
        res matches Err(e) ==> (e.0@ == "codeword shape"@ || e.0@
            == "diagonal pattern dimensions"@),
        res matches Ok(out) ==> {
            &&& coordinates(out@) == kept_cells(
                |j: int, i: int| !diagonal_erased(domain.parameters()@, j, i),
                domain.parameters()@.m as int,
                domain.parameters()@.n() as int,
            )
            &&& forall|t: int| 0 <= t < out.len() ==> #[trigger] selected(values@, out@[t])
        },
{
    let p = domain.params();
    let ghost v = p@;
    require(has_codeword_shape(p, values), "codeword shape")?;
    let ell = p.ell();
    let m = p.m();
    let mut flags: Vec<bool> = Vec::new();
    let mut j: usize = 0;
    while j < ell
        invariant
            v == p@,
            p == domain.parameters(),
            codeword_shape(v, values@),
            v.valid(),
            ell == v.ell,
            m == v.m,
            j <= ell,
            diagonal_applies(v) || j == 0,
            flags.len() == j * m,
            forall|a: int, b: int|
                0 <= a < j && 0 <= b < m ==> #[trigger] flags@[cell(v, a, b)] == diagonal_erased(
                    v,
                    a,
                    b,
                ),
        decreases ell - j,
    {
        let mut i: usize = 0;
        while i < m
            invariant
                v == p@,
                p == domain.parameters(),
                codeword_shape(v, values@),
                v.valid(),
                ell == v.ell,
                m == v.m,
                j < ell,
                i <= m,
                diagonal_applies(v) || (j == 0 && i == 0),
                flags.len() == j * m + i,
                forall|a: int, b: int|
                    (0 <= a < j && 0 <= b < m) || (a == j && 0 <= b < i) ==> #[trigger] flags@[cell(
                        v,
                        a,
                        b,
                    )] == diagonal_erased(v, a, b),
            decreases m - i,
        {
            let e = erased(p, j, i)?;
            proof {
                lemma_cell(v, j as int, i as int);
            }
            let ghost before = flags@;
            flags.push(e);
            proof {
                assert forall|a: int, b: int|
                    (0 <= a < j && 0 <= b < m) || (a == j && 0 <= b < i + 1) implies #[trigger] flags@[cell(
                    v,
                    a,
                    b,
                )] == diagonal_erased(v, a, b) by {
                    lemma_cell(v, a, b);
                    if a == j && b == i {
                    } else {
                        assert(cell(v, a, b) < j * m + i) by (nonlinear_arith)
                            requires
                                (0 <= a < j && 0 <= b < m) || (a == j && 0 <= b < i),
                                cell(v, a, b) == a * m + b,
                                m == v.m,
                        {
                            if a < j {
                                assert(a * m + m <= j * m) by (nonlinear_arith)
                                    requires
                                        a + 1 <= j,
                                        m >= 0,
                                ;
                            }
                        }
                        assert(before[cell(v, a, b)] == diagonal_erased(v, a, b));
                    }
                }
            }
            i = i + 1;
        }
        assert(j * m + m == (j + 1) * m) by (nonlinear_arith);
        j = j + 1;
    }
    assert(j * m == v.n()) by (nonlinear_arith)
        requires
            j == v.ell,
            v.n() == v.ell * v.m,
            m == v.m,
    ;
    let ghost keep = |a: int, b: int| !diagonal_erased(v, a, b);
    assert forall|a: int, b: int| in_grid(v, a, b) implies (flags@[cell(v, a, b)] == false)
        == keep(a, b) by {
        assert(flags@[cell(v, a, b)] == diagonal_erased(v, a, b));
    }
    Ok(select_values(p, values, Ghost(keep), &flags, false))
}

/// The premises under which the diagonal pattern is fully recoverable: at least as many
/// rows as groups, at most `ell - a` erasures per row, and enough survivors in total
/// (`(ell - 1)(r - 1) > m (a - 1)`).
pub open spec fn reconstruction_premises(v: ParamsView) -> bool {
    &&& v.m >= v.ell
    &&& (v.ell * (v.m - v.r + 1) + v.m - 1) / (v.m as int) <= v.ell - v.a
    &&& (v.ell - 1) * (v.r - 1) > v.m * (v.a - 1)
}

/// Whether validated parameters meet [`reconstruction_premises`].
pub fn meets_reconstruction_premises(p: Params) -> (ok: bool)
    ensures
        ok == reconstruction_premises(p@),
{
    proof {
        use_type_invariant(&p);
        crate::domain::lemma_valid_bounds(p@);
    }
    let ell = p.ell();
    let m = p.m();
    let r = p.r();
    let a = p.a();
    if m < ell {
        return false;
    }
    proof {
        assert(ell * (m - r + 1) <= 4096 * 16384) by (nonlinear_arith)
            requires
                ell <= 4096,
                m - r + 1 <= 16384,
                r + 1 <= m,
        ;
        assert((ell - 1) * (r - 1) <= 4096 * 16384) by (nonlinear_arith)
            requires
                1 <= ell <= 4096,
                2 <= r <= 16384,
        ;
        assert(m * (a - 1) <= 16384 * 4096) by (nonlinear_arith)
            requires
                m <= 16384,
                1 <= a <= 4096,
        ;
    }
    let per_row = (ell as u64 * (m - r + 1) as u64 + m as u64 - 1) / m as u64;
    per_row <= (ell - a) as u64 && (ell as u64 - 1) * (r as u64 - 1) > m as u64 * (a as u64 - 1)
}

/// Survivors per group and per row of the diagonal pattern.
pub fn pattern_counts(p: Params) -> (res: Result<(Vec<usize>, Vec<usize>)>)
    ensures
        res is Ok <==> diagonal_applies(p@),
        res matches Err(e) ==> e.0@ == "diagonal pattern dimensions"@,
        res matches Ok((groups, rows)) ==> {
            &&& groups.len() == p@.ell
            &&& rows.len() == p@.m
            &&& forall|j: int|
                0 <= j < p@.ell ==> #[trigger] groups@[j] == group_survivors(
                    |x: int, y: int| diagonal_erased(p@, x, y),
                    j,
                    p@.m as int,
                )
            &&& forall|i: int|
                0 <= i < p@.m ==> #[trigger] rows@[i] == row_survivors(
                    |x: int, y: int| diagonal_erased(p@, x, y),
                    i,
                    p@.ell as int,
                )
            &&& forall|j: int| 0 <= j < p@.ell ==> #[trigger] groups@[j] == p@.r - 1
        },
{
    proof {
        use_type_invariant(&p);
    }
    let ghost er = |x: int, y: int| diagonal_erased(p@, x, y);
    proof {
        assert forall|j: int| 0 <= j < p@.ell implies #[trigger] group_survivors(er, j, p@.m as int) == p@.r - 1 by {
            lemma_diagonal_group_survivors(p@, j);
        }
    }
    let ell = p.ell();
    let m = p.m();
    let mut groups: Vec<usize> = vec![0; ell];
    let mut rows: Vec<usize> = vec![0; m];
    let mut j: usize = 0;
    while j < ell
        invariant
            p@.valid(),
            er == (|x: int, y: int| diagonal_erased(p@, x, y)),
            ell == p@.ell,
            m == p@.m,
            j <= ell,
            diagonal_applies(p@) || j == 0,
            groups.len() == ell,
            rows.len() == m,
            forall|x: int| 0 <= x < j ==> #[trigger] groups@[x] == group_survivors(er, x, m as int),
            forall|x: int| j <= x < ell ==> #[trigger] groups@[x] == 0,
            forall|y: int| 0 <= y < m ==> #[trigger] rows@[y] == row_survivors(er, y, j as int),
        decreases ell - j,
    {
        let mut i: usize = 0;
        while i < m
            invariant
                p@.valid(),
                er == (|x: int, y: int| diagonal_erased(p@, x, y)),
                ell == p@.ell,
                m == p@.m,
                j < ell,
                i <= m,
                diagonal_applies(p@) || (j == 0 && i == 0),
                groups.len() == ell,
                rows.len() == m,
                forall|x: int| 0 <= x < j ==> #[trigger] groups@[x] == group_survivors(er, x, m as int),
                forall|x: int| j < x < ell ==> #[trigger] groups@[x] == 0,
                groups@[j as int] == group_survivors(er, j as int, i as int),
                forall|y: int| 0 <= y < i ==> #[trigger] rows@[y] == row_survivors(er, y, j + 1),
                forall|y: int| i <= y < m ==> #[trigger] rows@[y] == row_survivors(er, y, j as int),
            decreases m - i,
        {
            let e = erased(p, j, i)?;
            proof {
                lemma_survivors_bounded(er, j as int, i as int);
                lemma_survivors_bounded(er, i as int, j as int);
            }
            assert(e == er(j as int, i as int));
            assert(group_survivors(er, j as int, i + 1) == group_survivors(er, j as int, i as int)
                + if e { 0nat } else { 1nat });
            assert(row_survivors(er, i as int, j + 1) == row_survivors(er, i as int, j as int)
                + if e { 0nat } else { 1nat });
            if !e {
                groups.set(j, groups[j] + 1);
                rows.set(i, rows[i] + 1);
            }
            i = i + 1;
        }
        j = j + 1;
    }
    Ok((groups, rows))
}


/// The groups whose commitments a header carries: the sources and, with a residual,
/// the residual group.
pub open spec fn committed_groups(v: ParamsView) -> int {
    v.a + if v.b > 0 {
        1int
    } else {
        0int
    }
}

/// Whether recovered locals reproduce the header's commitments of the committed groups.
pub open spec fn authenticates(
    v: ParamsView,
    table: Seq<Seq<int>>,
    g1s: Seq<Seq<u8>>,
    h_points: Seq<Seq<u8>>,
    h_params: ParamsView,
    locals: Seq<Seq<int>>,
) -> bool {
    &&& h_params == v
    &&& forall|j: int|
        0 <= j < committed_groups(v) ==> {
            &&& (#[trigger] locals[j]).len() <= g1s.len()
            &&& msm1(g1s.take(locals[j].len() as int), locals[j]) == derived(h_points, v, table, j)
        }
}

impl Recovered {
    /// Check the recovered sources (and residual group) against a verified header.
    pub fn authenticate(&self, domain: &Domain, srs: &PublicSrs, header: &VerifiedHeader) -> (res: Result<()>)
        ensures
            res is Ok <==> {
                let v = domain.parameters()@;
                &&& self.locals_view().len() == v.ell
                &&& self.message_view().len() == v.k()
                &&& authenticates(v, domain.weight_table(), srs.g1_view(), header.points(), header.params_view(), self.locals_view())
            },
            !(self.locals_view().len() == domain.parameters()@.ell && self.message_view().len()
                == domain.parameters()@.k()) ==> (res matches Err(e) && e.0@ == "recovered dimensions"@),
            res matches Err(e) ==> e.0@ == "recovered dimensions"@ || e.0@ == "polynomial exceeds dedicated SRS"@
                || e.0@ == "domain dimensions"@ || e.0@ == "reconstructed header mismatch"@,
    {
        let p = domain.params();
        let ghost v = p@;
        let ghost lv = self.locals_view();
        require(self.locals.len() == p.ell() && self.message.len() == p.k(), "recovered dimensions")?;
        let count = p.a() + if p.b() > 0 {
            1
        } else {
            0
        };
        let mut j: usize = 0;
        while j < count
            invariant
                v == p@,
                v.valid(),
                lv == self.locals_view(),
                p == domain.parameters(),
                self.locals.len() == v.ell,
                lv.len() == v.ell,
                self.message.len() == v.k(),
                self.message_view().len() == v.k(),
                count == committed_groups(v),
                count <= v.ell,
                j <= count,
                header.params_view() == v || j == 0,
                forall|t: int|
                    0 <= t < j ==> {
                        &&& (#[trigger] lv[t]).len() <= srs.g1_view().len()
                        &&& msm1(srs.g1_view().take(lv[t].len() as int), lv[t]) == derived(
                            header.points(),
                            v,
                            domain.weight_table(),
                            t,
                        )
                    },
            decreases count - j,
        {
            assert(lv[j as int] == fes(self.locals@[j as int]@));
            let c = srs.commit(self.locals[j].as_slice())?;
            let d = header.derive(domain, j)?;
            require(c.same(&d), "reconstructed header mismatch")?;
            j = j + 1;
        }
        Ok(())
    }

    /// Open recovered group `j` at position `index`.
    pub fn serve(&self, domain: &Domain, srs: &PublicSrs, scheme: Scheme, j: usize, index: usize) -> (res:
        Result<Opening>)
        ensures
            j >= self.locals_view().len() ==> (res matches Err(e) && e.0@ == "recovered group"@),
            res is Ok <==> {
                let v = domain.parameters()@;
                &&& j < self.locals_view().len()
                &&& j < v.ell && index < v.m && (scheme != Scheme::Product || v.b == 0)
                &&& self.locals_view()[j as int].len() <= srs.g1_view().len()
            },
            res matches Ok(o) ==> opening_of(
                o,
                self.locals_view()[j as int],
                seq![point_value(domain.parameters()@, scheme, j as int, index as int)],
                srs.g1_view(),
            ),
    {
        require(j < self.locals.len(), "recovered group")?;
        let x = domain.point(scheme, j, index)?;
        let xs = vec![x];
        assert(fes(xs@) == seq![x@]);
        assert(self.locals_view()[j as int] == fes(self.locals@[j as int]@));
        srs.open(self.locals[j].as_slice(), xs.as_slice())
    }
}


/// The sum of `ws[s] vs[s]` over the first `n` helpers.
pub open spec fn weighted_values(ws: Seq<int>, vs: Seq<int>, n: int) -> int
    decreases n,
{
    if n <= 0 {
        0
    } else {
        weighted_values(ws, vs, n - 1) + ws[n - 1] * vs[n - 1]
    }
}

/// Repair a product-code point of group `target` from single-value openings of the same
/// position in `a` helper groups: the row-weighted value and the row-weighted proof,
/// checked against the target's derived commitment.
pub fn repair_product_point(
    domain: &Domain,
    srs: &PublicSrs,
    header: &VerifiedHeader,
    target: usize,
    index: usize,
    helpers: &[(usize, Opening)],
) -> (res: Result<Opening>)
    ensures
        !(header.scheme_view() == Scheme::Product && forall|s: int|
            0 <= s < helpers.len() ==> (#[trigger] helpers@[s]).1.values.len() == 1) ==> (res matches Err(e)
            && e.0@ == "row repair scheme/values"@),
        res matches Ok(o) ==> {
            let v = domain.parameters()@;
            &&& o.values.len() == 1
            &&& crate::kzg::accepts(
                srs.g1_view(),
                srs.g2_view(),
                derived(header.points(), v, domain.weight_table(), target as int),
                seq![point_value(v, Scheme::Product, target as int, index as int)],
                fes(o.values@),
                o.proof.encoding(),
            )
            &&& exists|w: Seq<int>|
                {
                    &&& #[trigger] w.len() == helpers.len()
                    &&& o.values@[0]@ == weighted_values(
                        w,
                        Seq::new(helpers.len() as nat, |s: int| helpers@[s].1.values@[0]@),
                        helpers.len() as int,
                    ) % modulus()
                    &&& o.proof.encoding() == msm1(
                        Seq::new(helpers.len() as nat, |s: int| helpers@[s].1.proof.encoding()),
                        w,
                    )
                }
        },
{
    let mut ok = header.scheme() == Scheme::Product;
    let mut s: usize = 0;
    while s < helpers.len()
        invariant
            s <= helpers.len(),
            ok == (header.scheme_view() == Scheme::Product && forall|t: int|
                0 <= t < s ==> (#[trigger] helpers@[t]).1.values.len() == 1),
        decreases helpers.len() - s,
    {
        if helpers[s].1.values.len() != 1 {
            ok = false;
        }
        s = s + 1;
    }
    require(ok, "row repair scheme/values")?;
    let mut groups: Vec<usize> = Vec::new();
    let mut bases: Vec<G1> = Vec::new();
    let ghost vals = Seq::new(helpers.len() as nat, |t: int| helpers@[t].1.values@[0]@);
    let ghost proofs = Seq::new(helpers.len() as nat, |t: int| helpers@[t].1.proof.encoding());
    let mut s: usize = 0;
    while s < helpers.len()
        invariant
            s <= helpers.len(),
            groups.len() == s,
            bases.len() == s,
            proofs == Seq::new(helpers.len() as nat, |t: int| helpers@[t].1.proof.encoding()),
            forall|t: int| 0 <= t < s ==> #[trigger] bases@[t].encoding() == proofs[t],
        decreases helpers.len() - s,
    {
        groups.push(helpers[s].0);
        bases.push(helpers[s].1.proof);
        s = s + 1;
    }
    let weights = row_weights(domain, groups.as_slice(), target)?;
    let mut value = Fe::zero();
    let mut s: usize = 0;
    while s < helpers.len()
        invariant
            s <= helpers.len(),
            weights.len() == helpers.len(),
            forall|t: int| 0 <= t < helpers.len() ==> (#[trigger] helpers@[t]).1.values.len() == 1,
            vals == Seq::new(helpers.len() as nat, |t: int| helpers@[t].1.values@[0]@),
            value@ == weighted_values(fes(weights@), vals, s as int) % modulus(),
        decreases helpers.len() - s,
    {
        let term = helpers[s].1.values[0].mul(weights[s]);
        let next = value.add(term);
        proof {
            let m = modulus();
            let prev = weighted_values(fes(weights@), vals, s as int);
            assert(vals[s as int] == helpers@[s as int].1.values@[0]@);
            assert(weighted_values(fes(weights@), vals, s + 1) == prev + fes(weights@)[s as int] * vals[s as int]);
            assert(vals[s as int] * fes(weights@)[s as int] == fes(weights@)[s as int] * vals[s as int]) by (nonlinear_arith);
            lemma_add_mod_noop(prev, fes(weights@)[s as int] * vals[s as int], m);
            lemma_mod_twice(prev, m);
            lemma_mod_twice(fes(weights@)[s as int] * vals[s as int], m);
            lemma_add_mod_noop(prev % m, (fes(weights@)[s as int] * vals[s as int]) % m, m);
        }
        value = next;
        s = s + 1;
    }
    assert(crate::kzg::g1_encodings(bases@) == proofs);
    let proof = crate::kzg::msm_g1(bases.as_slice(), weights.as_slice())?;
    let opening = Opening { values: vec![value], proof };
    let c = header.derive(domain, target)?;
    let x = domain.point(Scheme::Product, target, index)?;
    let xs = vec![x];
    srs.verify(c, xs.as_slice(), &opening)?;
    proof {
        assert(fes(xs@) == seq![x@]);
        assert(fes(weights@).len() == helpers.len());
    }
    Ok(opening)
}

} // verus!
