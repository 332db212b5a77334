//! Message layout: source groups hold the message directly, the residual is converted
//! so that the residual group reproduces the message tail, and parity groups are fixed
//! linear combinations of the source groups and the residual.
use crate::domain::{outer_value, point_value, Domain, Params, ParamsView, Scheme};
use crate::error::{require, Error, Result};
use crate::field::{inv_of, lemma_inv_of, modulus, Fe};
use crate::kzg::{
    append_g1, concat_encodings, decode_g1_points, g1_chunks, g1_chunks_decode, g1_encodings, g1_scaled,
    g1_sum, msm1, msm_g1, opening_of, accepts, chunk, g1_decoded, g1_identity_encoding, le_value, pairing_equal, pairing_product, sha256, sha256_digest, Opening, PublicSrs,
    G1,
};
use crate::polynomial::{coef, denominator, distinct, fes, interpolate, lagrange, peval};
use vstd::arithmetic::div_mod::*;
use vstd::prelude::*;

verus! {

/// The values of rows of field elements.
pub open spec fn rows_view(rows: Seq<Vec<Fe>>) -> Seq<Seq<int>> {
    Seq::new(rows.len(), |s: int| fes(rows[s]@))
}

/// `sum_{s < n} row[s] coef(src[s], i)`.
pub open spec fn weighted_sum(row: Seq<int>, src: Seq<Seq<int>>, i: int, n: int) -> int
    decreases n,
{
    if n <= 0 {
        0
    } else {
        weighted_sum(row, src, i, n - 1) + row[n - 1] * coef(src[n - 1], i)
    }
}

/// Source group `s` of a message: its `r` coefficients.
pub open spec fn message_source(msg: Seq<int>, r: int, s: int) -> Seq<int> {
    msg.subrange(s * r, s * r + r)
}

/// The source groups of a message.
pub open spec fn message_sources(v: ParamsView, msg: Seq<int>) -> Seq<Seq<int>> {
    Seq::new(v.a, |s: int| message_source(msg, v.r as int, s))
}

/// The converted residual of a message: `(tail_i - sum_s W[a][s] u_s[i]) / B(gamma_a)`.
pub open spec fn message_residual(v: ParamsView, table: Seq<Seq<int>>, msg: Seq<int>) -> Seq<int> {
    Seq::new(
        v.b,
        |i: int|
            ((msg[v.a * v.r + i] - weighted_sum(
                table[v.a as int],
                message_sources(v, msg),
                i,
                v.a as int,
            )) % modulus() * inv_of(outer_value(v, v.a as int))) % modulus(),
    )
}

/// The local coefficients of parity group `j` from sources `src` and residual `res`.
pub open spec fn parity_local(
    v: ParamsView,
    table: Seq<Seq<int>>,
    src: Seq<Seq<int>>,
    res: Seq<int>,
    j: int,
) -> Seq<int> {
    let n = if src.len() < v.a {
        src.len() as int
    } else {
        v.a as int
    };
    Seq::new(
        v.r,
        |i: int| (weighted_sum(table[j], src, i, n) + outer_value(v, j) * coef(res, i)) % modulus(),
    )
}

/// The first `b` local coefficients of the residual group (group `a`) are the message's
/// tail. Stated over the contracts of `MessagePolys::new` and `MessagePolys::locals`.
pub proof fn lemma_systematic(
    v: ParamsView,
    table: Seq<Seq<int>>,
    msg: Seq<int>,
    src: Seq<Seq<int>>,
    res: Seq<int>,
)
    requires
        v.valid(),
        msg.len() == v.k(),
        forall|t: int| 0 <= t < msg.len() ==> 0 <= #[trigger] msg[t] < modulus(),
        src.len() == v.a,
        forall|s: int| 0 <= s < v.a ==> #[trigger] src[s] == message_source(msg, v.r as int, s),
        res.len() == v.b,
        forall|i: int|
            0 <= i < v.b ==> (#[trigger] res[i] * outer_value(v, v.a as int)) % modulus() == (msg[v.a
                * v.r + i] - weighted_sum(table[v.a as int], src, i, v.a as int)) % modulus(),
    ensures
        forall|i: int|
            0 <= i < v.b ==> #[trigger] parity_local(v, table, src, res, v.a as int)[i] == msg[v.a
                * v.r + i],
{
    crate::domain::lemma_valid_bounds(v);
    assert forall|i: int| 0 <= i < v.b implies #[trigger] parity_local(
        v,
        table,
        src,
        res,
        v.a as int,
    )[i] == msg[v.a * v.r + i] by {
        let m = modulus();
        let ws = weighted_sum(table[v.a as int], src, i, v.a as int);
        let bw = outer_value(v, v.a as int);
        let x = msg[v.a * v.r + i];
        assert(v.a * v.r + i < msg.len()) by (nonlinear_arith)
            requires
                i < v.b,
                msg.len() == v.a * v.r + v.b,
        ;
        assert(coef(res, i) == res[i]);
        assert(bw * res[i] == res[i] * bw) by (nonlinear_arith);
        lemma_add_mod_noop(ws, bw * res[i], m);
        lemma_add_mod_noop(ws, x - ws, m);
        lemma_small_mod(x as nat, m as nat);
    }
}

/// The first `n` source blocks of a message, concatenated, are its first `n r` elements.
pub proof fn lemma_flatten_sources(rows: Seq<Seq<int>>, msg: Seq<int>, r: int, n: int)
    requires
        0 <= n,
        r >= 0,
        n * r <= msg.len(),
        rows.len() >= n,
        forall|s: int| 0 <= s < n ==> #[trigger] rows[s] == message_source(msg, r, s),
    ensures
        crate::recovery::flatten_rows(rows, n) == msg.take(n * r),
    decreases n,
{
    if n > 0 {
        assert((n - 1) * r + r == n * r) by (nonlinear_arith);
        assert((n - 1) * r <= n * r) by (nonlinear_arith)
            requires
                r >= 0,
        ;
        lemma_flatten_sources(rows, msg, r, n - 1);
        assert(rows[n - 1] == message_source(msg, r, n - 1));
        assert(msg.take(n * r) == msg.take((n - 1) * r) + msg.subrange((n - 1) * r, n * r));
    } else {
        assert(n * r == 0) by (nonlinear_arith)
            requires
                n == 0,
        ;
        assert(msg.take(0) == Seq::<int>::empty());
    }
}

/// Decoding an encoding gives the message back: reading the source groups' coefficients
/// and the residual group's first `b` coefficients from the local polynomials that
/// `MessagePolys::locals` states yields the message that `MessagePolys::new` was given.
pub proof fn lemma_encoding_round_trip(
    v: ParamsView,
    table: Seq<Seq<int>>,
    msg: Seq<int>,
    src: Seq<Seq<int>>,
    res: Seq<int>,
    locals: Seq<Seq<int>>,
)
    requires
        v.valid(),
        msg.len() == v.k(),
        forall|t: int| 0 <= t < msg.len() ==> 0 <= #[trigger] msg[t] < modulus(),
        src.len() == v.a,
        forall|s: int| 0 <= s < v.a ==> #[trigger] src[s] == message_source(msg, v.r as int, s),
        res.len() == v.b,
        forall|i: int|
            0 <= i < v.b ==> (#[trigger] res[i] * outer_value(v, v.a as int)) % modulus() == (msg[v.a
                * v.r + i] - weighted_sum(table[v.a as int], src, i, v.a as int)) % modulus(),
        locals.len() == v.ell,
        forall|s: int| 0 <= s < v.a ==> #[trigger] locals[s] == src[s],
        forall|t: int|
            0 <= t < v.ell - v.a ==> #[trigger] locals[v.a + t] == parity_local(v, table, src, res, v.a + t),
    ensures
        crate::recovery::locals_message(v, locals) == msg,
{
    crate::domain::lemma_valid_bounds(v);
    assert(v.a * v.r <= msg.len()) by (nonlinear_arith)
        requires
            msg.len() == v.a * v.r + v.b,
    ;
    lemma_flatten_sources(locals, msg, v.r as int, v.a as int);
    if v.b > 0 {
        lemma_systematic(v, table, msg, src, res);
        let tail = locals[v.a as int];
        let t0 = 0int;
        assert(0 <= t0 < v.ell - v.a);
        assert(locals[v.a + t0] == parity_local(v, table, src, res, v.a + t0));
        assert(tail == parity_local(v, table, src, res, v.a as int));
        assert(tail.take(v.b as int) == msg.subrange((v.a * v.r) as int, msg.len() as int)) by {
            assert forall|i: int| 0 <= i < v.b implies #[trigger] tail.take(v.b as int)[i] == msg.subrange(
                (v.a * v.r) as int,
                msg.len() as int,
            )[i] by {
                assert(parity_local(v, table, src, res, v.a as int)[i] == msg[v.a * v.r + i]);
            }
        }
        assert(msg == msg.take((v.a * v.r) as int) + msg.subrange((v.a * v.r) as int, msg.len() as int));
    } else {
        assert(msg.take((v.a * v.r) as int) == msg);
    }
}

/// `sum_{s < n} u_s[i] w_s` with the field's operations, in order.
fn weighted_column(rows: &Vec<Vec<Fe>>, weights: &[Fe], i: usize, n: usize) -> (f: Fe)
    requires
        n <= rows.len(),
        n <= weights.len(),
    ensures
        f@ == weighted_sum(
            fes(weights@),
            rows_view(rows@),
            i as int,
            n as int,
        ) % modulus(),
{
    let ghost src = rows_view(rows@);
    let mut f = Fe::zero();
    let mut s: usize = 0;
    while s < n
        invariant
            src == rows_view(rows@),
            n <= rows.len(),
            n <= weights.len(),
            s <= n,
            f@ == weighted_sum(fes(weights@), src, i as int, s as int) % modulus(),
        decreases n - s,
    {
        let c = if i < rows[s].len() {
            rows[s][i]
        } else {
            Fe::zero()
        };
        assert(c@ == coef(src[s as int], i as int));
        let t = weights[s].mul(c);
        proof {
            let m = modulus();
            let prev = weighted_sum(fes(weights@), src, i as int, s as int);
            lemma_add_mod_noop(prev, weights@[s as int]@ * c@, m);
            lemma_mod_twice(prev, m);
            lemma_mod_twice(weights@[s as int]@ * c@, m);
        }
        f = f.add(t);
        s = s + 1;
    }
    f
}

/// The source coefficients and the converted residual of one message.
pub struct MessagePolys {
    source: Vec<Vec<Fe>>,
    residual: Vec<Fe>,
}

impl MessagePolys {
    /// The source groups' coefficients.
    pub closed spec fn source_view(self) -> Seq<Seq<int>> {
        rows_view(self.source@)
    }

    /// The residual coefficients.
    pub closed spec fn residual_view(self) -> Seq<int> {
        fes(self.residual@)
    }

    /// Split a message into source groups and convert its tail into residual coefficients.
    pub fn new(domain: &Domain, message: &[Fe]) -> (res: Result<Self>)
        ensures
            res is Ok <==> message.len() == domain.parameters()@.k() && (domain.parameters()@.b
                == 0 || outer_value(domain.parameters()@, domain.parameters()@.a as int) != 0),
            message.len() != domain.parameters()@.k() ==> (res matches Err(e) && e.0@
                == "message dimension"@),
            res matches Err(e) ==> (e.0@ == "message dimension"@ || e.0@ == "residual weight"@),
            res matches Ok(mp) ==> {
                let v = domain.parameters()@;
                let mv = fes(message@);
                &&& mp.source_view().len() == v.a
                &&& forall|s: int|
                    0 <= s < v.a ==> #[trigger] mp.source_view()[s] == message_source(
                        mv,
                        v.r as int,
                        s,
                    )
                &&& mp.source_view() == message_sources(v, mv)
                &&& mp.residual_view() == message_residual(v, domain.weight_table(), mv)
                &&& v.b > 0 ==> (outer_value(v, v.a as int) * inv_of(outer_value(v, v.a as int)))
                    % modulus() == 1
                &&& mp.residual_view().len() == v.b
                &&& forall|i: int|
                    0 <= i < v.b ==> (#[trigger] mp.residual_view()[i] * outer_value(
                        v,
                        v.a as int,
                    )) % modulus() == (mv[v.a * v.r + i] - weighted_sum(
                        domain.weight_table()[v.a as int],
                        mp.source_view(),
                        i,
                        v.a as int,
                    )) % modulus()
            },
    {
        let p = domain.params();
        let ghost v = p@;
        let ghost mv = fes(message@);
        proof {
            crate::domain::lemma_valid_bounds(v);
        }
        require(message.len() == p.k(), "message dimension")?;
        let a = p.a();
        let r = p.r();
        let b = p.b();
        assert(a * r <= v.k()) by (nonlinear_arith)
            requires
                v.k() == a * r + b,
        ;
        let mut source: Vec<Vec<Fe>> = Vec::new();
        let mut s: usize = 0;
        while s < a
            invariant
                v == p@,
                a == v.a,
                r == v.r,
                mv == fes(message@),
                message.len() == a * r + v.b,
                s <= a,
                source.len() == s,
                forall|t: int|
                    0 <= t < s ==> #[trigger] fes(source@[t]@) == message_source(mv, r as int, t),
            decreases a - s,
        {
            assert(s * r + r <= a * r) by (nonlinear_arith)
                requires
                    s < a,
            ;
            let mut row: Vec<Fe> = Vec::new();
            let mut i: usize = 0;
            while i < r
                invariant
                    s < a,
                    s * r + r <= a * r,
                    message.len() == a * r + v.b,
                    mv == fes(message@),
                    i <= r,
                    row.len() == i,
                    fes(row@) == mv.subrange(s * r, s * r + i),
                decreases r - i,
            {
                row.push(message[s * r + i]);
                i = i + 1;
                assert(fes(row@) == mv.subrange(s * r, s * r + i));
            }
            source.push(row);
            s = s + 1;
        }
        let mut residual: Vec<Fe> = Vec::new();
        let mut i: usize = 0;
        while i < b
            invariant
                message.len() == a * r + b,
                mv == fes(message@),
                i <= b,
                residual.len() == i,
                fes(residual@) == mv.subrange(a * r, a * r + i),
            decreases b - i,
        {
            residual.push(message[a * r + i]);
            i = i + 1;
            assert(fes(residual@) == mv.subrange(a * r, a * r + i));
        }
        let ghost src = rows_view(source@);
        assert forall|t: int| 0 <= t < a implies #[trigger] src[t] == message_source(
            mv,
            r as int,
            t,
        ) by {
            assert(src[t] == fes(source@[t]@));
        }
        if b > 0 {
            let bw = domain.residual_weight(a)?;
            let inv = match bw.inverse() {
                Some(x) => x,
                None => {
                    return Err(Error("residual weight".to_owned()));
                },
            };
            let weights = domain.weights(a)?;
            proof {
                Fe::lemma_range(inv);
                lemma_inv_of(bw@, inv@);
            }
            let mut i: usize = 0;
            while i < b
                invariant
                    v == p@,
                    a == v.a,
                    r == v.r,
                    b == v.b,
                    message.len() == a * r + b,
                    mv == fes(message@),
                    residual.len() == b,
                    source.len() == a,
                    weights.len() == a,
                    fes(weights@) == domain.weight_table()[a as int],
                    src == rows_view(source@),
                    bw@ == outer_value(v, a as int),
                    (bw@ * inv@) % modulus() == 1,
                    i <= b,
                    forall|t: int| i <= t < b ==> #[trigger] fes(residual@)[t] == mv[a * r + t],
                    forall|t: int|
                        0 <= t < i ==> (#[trigger] fes(residual@)[t] * bw@) % modulus() == (mv[a
                            * r + t] - weighted_sum(fes(weights@), src, t, a as int))
                            % modulus(),
                decreases b - i,
            {
                let f = weighted_column(&source, weights, i, a);
                let e = residual[i];
                assert(fes(residual@)[i as int] == e@);
                assert(e@ == mv[a * r + i]);
                let conv = e.sub(f).mul(inv);
                proof {
                    let m = modulus();
                    let ws = weighted_sum(fes(weights@), src, i as int, a as int);
                    let d = (e@ + m - f@) % m;
                    assert(d == (e@ - ws) % m) by {
                        lemma_mod_twice(ws, m);
                        lemma_sub_mod_noop(e@, ws, m);
                        lemma_mod_add_multiples_vanish(e@ - f@, m);
                        assert(e@ + m - f@ == m + (e@ - f@));
                        Fe::lemma_range(e);
                        lemma_small_mod(e@ as nat, m as nat);
                    }
                    lemma_mul_mod_noop_general(d * inv@, bw@, m);
                    assert((d * inv@) * bw@ == d * (bw@ * inv@)) by (nonlinear_arith);
                    lemma_mul_mod_noop_general(d, bw@ * inv@, m);
                    assert(d * 1 == d);
                    lemma_mod_twice(e@ - ws, m);
                }
                let ghost old_r = fes(residual@);
                residual.set(i, conv);
                assert(fes(residual@) == old_r.update(i as int, conv@));
                i = i + 1;
            }
        }
        let mp = MessagePolys { source, residual };
        assert(mp.source_view() == src);
        proof {
            assert(src == message_sources(v, mv));
            let tbl = domain.weight_table();
            assert forall|i: int| 0 <= i < v.b implies #[trigger] mp.residual_view()[i]
                == message_residual(v, tbl, mv)[i] by {
                let bwv = outer_value(v, v.a as int);
                let x = mp.residual_view()[i];
                let d = (mv[v.a * v.r + i] - weighted_sum(tbl[v.a as int], src, i, v.a as int)) % modulus();
                Fe::lemma_range(mp.residual@[i]);
                // x B = d and B inv = 1 give x = d inv.
                lemma_mul_mod_noop_general(x * bwv, inv_of(bwv), modulus());
                assert((x * bwv) * inv_of(bwv) == x * (bwv * inv_of(bwv))) by (nonlinear_arith);
                lemma_mul_mod_noop_general(x, bwv * inv_of(bwv), modulus());
                assert(x * 1 == x);
                lemma_small_mod(x as nat, modulus() as nat);
                lemma_mul_mod_noop_general(d, inv_of(bwv), modulus());
                lemma_mod_twice(d, modulus());
            }
            assert(mp.residual_view() == message_residual(v, tbl, mv));
        }
        Ok(mp)
    }

    /// Coefficients of the source groups.
    pub fn source_coefficients(&self) -> (s: &[Vec<Fe>])
        ensures
            s.len() == self.source_view().len(),
            forall|t: int| 0 <= t < s.len() ==> #[trigger] fes(s@[t]@) == self.source_view()[t],
    {
        self.source.as_slice()
    }

    /// Coefficients of the residual.
    pub fn residual_coefficients(&self) -> (s: &[Fe])
        ensures
            fes(s@) == self.residual_view(),
    {
        self.residual.as_slice()
    }

    /// Local coefficients of every group: the sources, then each parity group's
    /// weighted combination of the sources plus its multiple of the residual.
    pub fn locals(&self, domain: &Domain) -> (res: Result<Vec<Vec<Fe>>>)
        ensures
            res matches Ok(locals) && {
                let v = domain.parameters()@;
                let n = self.source_view().len();
                &&& locals.len() == n + (v.ell - v.a)
                &&& forall|j: int| 0 <= j < n ==> #[trigger] fes(locals@[j]@) == self.source_view()[j]
                &&& forall|t: int|
                    0 <= t < v.ell - v.a ==> #[trigger] fes(locals@[n + t]@) == parity_local(
                        v,
                        domain.weight_table(),
                        self.source_view(),
                        self.residual_view(),
                        v.a + t,
                    )
            },
    {
        let p = domain.params();
        let ghost v = p@;
        let ghost src = self.source_view();
        let ghost resv = self.residual_view();
        let ghost n = src.len();
        let mut locals: Vec<Vec<Fe>> = Vec::new();
        let mut j: usize = 0;
        while j < self.source.len()
            invariant
                src == self.source_view(),
                j <= self.source.len(),
                locals.len() == j,
                forall|t: int| 0 <= t < j ==> #[trigger] fes(locals@[t]@) == src[t],
            decreases self.source.len() - j,
        {
            locals.push(crate::field::copy_elements(self.source[j].as_slice()));
            assert(fes(locals@[j as int]@) == src[j as int]);
            j = j + 1;
        }
        let a = p.a();
        let r = p.r();
        let ell = p.ell();
        let count = if self.source.len() < a {
            self.source.len()
        } else {
            a
        };
        let mut j: usize = a;
        while j < ell
            invariant
                v == p@,
                p == domain.parameters(),
                v.valid(),
                a == v.a,
                r == v.r,
                ell == v.ell,
                src == self.source_view(),
                resv == self.residual_view(),
                n == src.len(),
                count == if n < a {
                    n as int
                } else {
                    a as int
                },
                domain.weight_table().len() == v.ell,
                forall|i: int|
                    0 <= i < v.ell ==> (#[trigger] domain.weight_table()[i]).len() == v.a,
                a <= j <= ell,
                locals.len() == n + (j - a),
                forall|t: int| 0 <= t < n ==> #[trigger] fes(locals@[t]@) == src[t],
                forall|t: int|
                    0 <= t < j - a ==> #[trigger] fes(locals@[n + t]@) == parity_local(
                        v,
                        domain.weight_table(),
                        src,
                        resv,
                        a + t,
                    ),
            decreases ell - j,
        {
            let weights = domain.weights(j)?;
            let bw = domain.residual_weight(j)?;
            let mut d: Vec<Fe> = Vec::new();
            let mut i: usize = 0;
            while i < r
                invariant
                    v == p@,
                    r == v.r,
                    a == v.a,
                    j < v.ell,
                    count <= self.source.len(),
                    count <= weights.len(),
                    src == self.source_view(),
                    resv == self.residual_view(),
                    fes(weights@) == domain.weight_table()[j as int],
                    bw@ == outer_value(v, j as int),
                    count == if src.len() < a {
                        src.len() as int
                    } else {
                        a as int
                    },
                    i <= r,
                    d.len() == i,
                    forall|t: int|
                        0 <= t < i ==> #[trigger] fes(d@)[t] == parity_local(
                            v,
                            domain.weight_table(),
                            src,
                            resv,
                            j as int,
                        )[t],
                decreases r - i,
            {
                let f = weighted_column(&self.source, weights, i, count);
                let e = if i < self.residual.len() {
                    self.residual[i]
                } else {
                    Fe::zero()
                };
                assert(e@ == coef(resv, i as int));
                let x = f.add(bw.mul(e));
                proof {
                    let m = modulus();
                    let ws = weighted_sum(fes(weights@), src, i as int, count as int);
                    assert(src == rows_view(self.source@));
                    lemma_add_mod_noop(ws, bw@ * e@, m);
                    lemma_mod_twice(ws, m);
                    lemma_mod_twice(bw@ * e@, m);
                }
                let ghost old_d = fes(d@);
                d.push(x);
                assert(fes(d@) == old_d.push(x@));
                i = i + 1;
            }
            assert(fes(d@) == parity_local(v, domain.weight_table(), src, resv, j as int));
            locals.push(d);
            j = j + 1;
        }
        Ok(locals)
    }
}


/// ASCII decimal digits of `n`.
pub open spec fn decimal(n: nat) -> Seq<u8>
    decreases n,
{
    if n < 10 {
        seq![(48 + n) as u8]
    } else {
        decimal(n / 10) + seq![(48 + n % 10) as u8]
    }
}

/// Append the decimal digits of `n`.
pub(crate) fn push_decimal(out: &mut Vec<u8>, n: usize)
    ensures
        final(out)@ == old(out)@ + decimal(n as nat),
    decreases n,
{
    let ghost start = out@;
    if n >= 10 {
        push_decimal(out, n / 10);
    }
    out.push((48 + n % 10) as u8);
    proof {
        if n >= 10 {
            assert(out@ == start + decimal((n / 10) as nat) + seq![(48 + n % 10) as u8]);
        } else {
            assert(out@ == start + seq![(48 + n % 10) as u8]);
        }
    }
}

/// Append bytes.
pub(crate) fn push_bytes(out: &mut Vec<u8>, bytes: &[u8])
    ensures
        final(out)@ == old(out)@ + bytes@,
{
    let ghost start = out@;
    let mut i: usize = 0;
    while i < bytes.len()
        invariant
            i <= bytes.len(),
            out@ == start + bytes@.take(i as int),
        decreases bytes.len() - i,
    {
        out.push(bytes[i]);
        i = i + 1;
        assert(out@ == start + bytes@.take(i as int));
    }
    assert(bytes@.take(bytes.len() as int) == bytes@);
}

/// `{"ell":`
pub open spec fn key_ell() -> Seq<u8> {
    seq![123u8, 34, 101, 108, 108, 34, 58]
}

/// `,"m":`
pub open spec fn key_m() -> Seq<u8> {
    seq![44u8, 34, 109, 34, 58]
}

/// `,"r":`
pub open spec fn key_r() -> Seq<u8> {
    seq![44u8, 34, 114, 34, 58]
}

/// `,"a":`
pub open spec fn key_a() -> Seq<u8> {
    seq![44u8, 34, 97, 34, 58]
}

/// `,"b":`
pub open spec fn key_b() -> Seq<u8> {
    seq![44u8, 34, 98, 34, 58]
}

/// The compact JSON object of a parameter set, fields in declaration order.
pub open spec fn json_bytes(v: ParamsView) -> Seq<u8> {
    key_ell() + decimal(v.ell) + key_m() + decimal(v.m) + key_r() + decimal(v.r) + key_a() + decimal(v.a)
        + key_b() + decimal(v.b) + seq![125u8]
}

/// The compact JSON encoding of the parameters, as serde_json writes the derived form.
pub fn params_json(p: Params) -> (r: Vec<u8>)
    ensures
        r@ == json_bytes(p@),
{
    let mut out: Vec<u8> = Vec::new();
    let k1: [u8; 7] = [123u8, 34, 101, 108, 108, 34, 58];
    assert(k1@ == key_ell());
    push_bytes(&mut out, &k1);
    push_decimal(&mut out, p.ell());
    let k2: [u8; 5] = [44u8, 34, 109, 34, 58];
    assert(k2@ == key_m());
    push_bytes(&mut out, &k2);
    push_decimal(&mut out, p.m());
    let k3: [u8; 5] = [44u8, 34, 114, 34, 58];
    assert(k3@ == key_r());
    push_bytes(&mut out, &k3);
    push_decimal(&mut out, p.r());
    let k4: [u8; 5] = [44u8, 34, 97, 34, 58];
    assert(k4@ == key_a());
    push_bytes(&mut out, &k4);
    push_decimal(&mut out, p.a());
    let k5: [u8; 5] = [44u8, 34, 98, 34, 58];
    assert(k5@ == key_b());
    push_bytes(&mut out, &k5);
    push_decimal(&mut out, p.b());
    out.push(125u8);
    out
}

/// The domain-separation label of header contexts: `lrdas-v1-fixed-generator-domains`.
pub open spec fn context_label() -> Seq<u8> {
    seq![
        108u8, 114, 100, 97, 115, 45, 118, 49, 45, 102, 105, 120, 101, 100, 45, 103, 101, 110, 101,
        114, 97, 116, 111, 114, 45, 100, 111, 109, 97, 105, 110, 115,
    ]
}

/// The ASCII name of a scheme.
pub open spec fn scheme_bytes(s: Scheme) -> Seq<u8> {
    match s {
        Scheme::Lrdas => seq![108u8, 114, 100, 97, 115],
        Scheme::Product => seq![112u8, 114, 111, 100, 117, 99, 116],
    }
}

/// The hashed input of a header context.
pub open spec fn context_input(v: ParamsView, srs_id: Seq<u8>, s: Scheme) -> Seq<u8> {
    context_label() + srs_id + json_bytes(v) + scheme_bytes(s)
}

/// The context binding a header to its dimensions, SRS and scheme.
pub open spec fn context_of(v: ParamsView, srs_id: Seq<u8>, s: Scheme) -> Seq<u8> {
    sha256(context_input(v, srs_id, s))
}

/// The context of headers made with `p`, `srs` and `scheme`.
fn context(p: Params, srs: &PublicSrs, scheme: Scheme) -> (r: [u8; 32])
    ensures
        r@ == context_of(p@, srs.id_view(), scheme),
{
    let mut input: Vec<u8> = Vec::new();
    let label: [u8; 32] = [
        108u8, 114, 100, 97, 115, 45, 118, 49, 45, 102, 105, 120, 101, 100, 45, 103, 101, 110, 101,
        114, 97, 116, 111, 114, 45, 100, 111, 109, 97, 105, 110, 115,
    ];
    assert(label@ == context_label());
    push_bytes(&mut input, &label);
    let id = srs.id();
    push_bytes(&mut input, &id);
    let json = params_json(p);
    push_bytes(&mut input, json.as_slice());
    match scheme {
        Scheme::Lrdas => {
            let name: [u8; 5] = [108u8, 114, 100, 97, 115];
            assert(name@ == scheme_bytes(scheme));
            push_bytes(&mut input, &name);
        },
        Scheme::Product => {
            let name: [u8; 7] = [112u8, 114, 111, 100, 117, 99, 116];
            assert(name@ == scheme_bytes(scheme));
            push_bytes(&mut input, &name);
        },
    }
    sha256_digest(input.as_slice())
}


/// Header points: one commitment per source group, and with a residual its commitment
/// and the commitment to its shift by `r - b`.
pub open spec fn header_count(v: ParamsView) -> nat {
    v.a + if v.b > 0 {
        2nat
    } else {
        0nat
    }
}

/// `r - b` zero coefficients, then the residual: the residual shifted into the top of
/// the `r` coefficients.
pub open spec fn shifted(v: ParamsView, res: Seq<int>) -> Seq<int> {
    Seq::new((v.r - v.b) as nat, |i: int| 0int) + res
}

/// The points a header commits to for a message's source rows and residual.
pub open spec fn header_points(v: ParamsView, g1s: Seq<Seq<u8>>, src: Seq<Seq<int>>, res: Seq<int>) -> Seq<
    Seq<u8>,
> {
    let sources = Seq::new(v.a, |s: int| msm1(g1s.take(v.r as int), src[s]));
    if v.b > 0 {
        sources + seq![msm1(g1s.take(v.b as int), res), msm1(g1s.take(v.r as int), shifted(v, res))]
    } else {
        sources
    }
}

/// Commitments to a message's groups, bound to a context.
pub struct Header {
    points: Vec<G1>,
    context: [u8; 32],
    scheme: Scheme,
}

impl Clone for Header {
    fn clone(&self) -> (r: Self)
        ensures
            r.points_view() == self.points_view(),
            r.context_view() == self.context_view(),
            r.scheme_view() == self.scheme_view(),
    {
        let mut points: Vec<G1> = Vec::new();
        let mut i: usize = 0;
        while i < self.points.len()
            invariant
                i <= self.points.len(),
                points@ == self.points@.take(i as int),
            decreases self.points.len() - i,
        {
            points.push(self.points[i]);
            i = i + 1;
            assert(points@ == self.points@.take(i as int));
        }
        assert(self.points@.take(self.points.len() as int) == self.points@);
        Header { points, context: self.context, scheme: self.scheme }
    }
}

impl Header {
    /// The committed points.
    pub closed spec fn points_view(self) -> Seq<Seq<u8>> {
        g1_encodings(self.points@)
    }

    /// The context digest.
    pub closed spec fn context_view(self) -> Seq<u8> {
        self.context@
    }

    /// The scheme.
    pub closed spec fn scheme_view(self) -> Scheme {
        self.scheme
    }
}

impl MessagePolys {
    /// Commit to the source groups and, with a residual, to it and its shift.
    pub fn commit(&self, domain: &Domain, srs: &PublicSrs, scheme: Scheme) -> (res: Result<Header>)
        requires
            self.source_view().len() == domain.parameters()@.a,
            forall|s: int| 0 <= s < domain.parameters()@.a ==> (#[trigger] self.source_view()[s]).len()
                == domain.parameters()@.r,
            self.residual_view().len() == domain.parameters()@.b,
        ensures
            res is Ok <==> srs.g1_view().len() == domain.parameters()@.r && (scheme != Scheme::Product
                || domain.parameters()@.b == 0),
            srs.g1_view().len() != domain.parameters()@.r ==> (res matches Err(e) && e.0@
                == "SRS profile mismatch"@),
            srs.g1_view().len() == domain.parameters()@.r && !(scheme != Scheme::Product
                || domain.parameters()@.b == 0) ==> (res matches Err(e) && e.0@ == "product requires b=0"@),
            res matches Ok(h) ==> {
                &&& h.points_view() == header_points(
                    domain.parameters()@,
                    srs.g1_view(),
                    self.source_view(),
                    self.residual_view(),
                )
                &&& h.context_view() == context_of(domain.parameters()@, srs.id_view(), scheme)
                &&& h.scheme_view() == scheme
            },
    {
        let p = domain.params();
        let ghost v = p@;
        let ghost g1s = srs.g1_view();
        require(srs.r() == p.r(), "SRS profile mismatch")?;
        require(scheme != Scheme::Product || p.b() == 0, "product requires b=0")?;
        let mut points: Vec<G1> = Vec::new();
        let mut s: usize = 0;
        while s < self.source.len()
            invariant
                v == p@,
                g1s == srs.g1_view(),
                g1s.len() == v.r,
                self.source_view().len() == v.a,
                forall|t: int| 0 <= t < v.a ==> (#[trigger] self.source_view()[t]).len() == v.r,
                s <= self.source.len(),
                points.len() == s,
                forall|t: int| 0 <= t < s ==> #[trigger] g1_encodings(points@)[t] == msm1(
                    g1s.take(v.r as int),
                    self.source_view()[t],
                ),
            decreases self.source.len() - s,
        {
            assert(fes(self.source@[s as int]@) == self.source_view()[s as int]);
            let c = srs.commit(self.source[s].as_slice())?;
            let ghost before = points@;
            points.push(c);
            assert forall|t: int| 0 <= t < s + 1 implies #[trigger] g1_encodings(points@)[t] == msm1(
                g1s.take(v.r as int),
                self.source_view()[t],
            ) by {
                if t < s {
                    assert(points@[t] == before[t]);
                    assert(g1_encodings(before)[t] == msm1(g1s.take(v.r as int), self.source_view()[t]));
                }
            }
            s = s + 1;
        }
        let ghost sources = Seq::new(v.a, |t: int| msm1(g1s.take(v.r as int), self.source_view()[t]));
        assert(g1_encodings(points@) == sources);
        if p.b() > 0 {
            let c = srs.commit(self.residual.as_slice())?;
            let mut shift: Vec<Fe> = Vec::new();
            let mut i: usize = 0;
            while i < p.r() - p.b()
                invariant
                    v == p@,
                    v.b < v.r,
                    i <= v.r - v.b,
                    shift.len() == i,
                    forall|t: int| 0 <= t < i ==> #[trigger] shift@[t]@ == 0,
                decreases v.r - v.b - i,
            {
                shift.push(Fe::zero());
                i = i + 1;
            }
            let mut k: usize = 0;
            while k < self.residual.len()
                invariant
                    v == p@,
                    v.b < v.r,
                    self.residual.len() == v.b,
                    k <= v.b,
                    shift.len() == v.r - v.b + k,
                    forall|t: int| 0 <= t < v.r - v.b ==> #[trigger] shift@[t]@ == 0,
                    forall|t: int| 0 <= t < k ==> #[trigger] shift@[v.r - v.b + t]@ == self.residual_view()[t],
                decreases v.b - k,
            {
                shift.push(self.residual[k]);
                k = k + 1;
            }
            assert forall|t: int| 0 <= t < shift.len() implies #[trigger] fes(shift@)[t] == shifted(
                v,
                self.residual_view(),
            )[t] by {
                if t >= v.r - v.b {
                    assert(shift@[v.r - v.b + (t - (v.r - v.b))]@ == self.residual_view()[t - (v.r - v.b)]);
                }
            }
            assert(fes(shift@) == shifted(v, self.residual_view()));
            let d = srs.commit(shift.as_slice())?;
            let ghost before = points@;
            points.push(c);
            points.push(d);
            assert(g1_encodings(points@) == header_points(v, g1s, self.source_view(), self.residual_view())) by {
                assert(g1_encodings(points@) == g1_encodings(before) + seq![c.encoding(), d.encoding()]);
            }
        }
        Ok(Header { points, context: context(p, srs, scheme), scheme })
    }
}

impl Header {
    /// The concatenated point encodings.
    pub fn payload(&self) -> (res: Result<Vec<u8>>)
        ensures
            res matches Ok(b) && b@ == concat_encodings(self.points_view()),
    {
        let mut b: Vec<u8> = Vec::new();
        append_g1(&mut b, self.points.as_slice());
        Ok(b)
    }

    /// The context digest.
    pub fn context(&self) -> (r: [u8; 32])
        ensures
            r@ == self.context_view(),
    {
        self.context
    }

    /// Parse a header received for `scheme` under the context `id`.
    pub fn from_payload(domain: &Domain, srs: &PublicSrs, scheme: Scheme, id: [u8; 32], raw: &[u8]) -> (res:
        Result<Self>)
        ensures
            res is Ok <==> {
                let v = domain.parameters()@;
                &&& srs.g1_view().len() == v.r
                &&& id@ == context_of(v, srs.id_view(), scheme)
                &&& raw.len() == 48 * header_count(v)
                &&& g1_chunks_decode(raw@, header_count(v) as int)
            },
            srs.g1_view().len() != domain.parameters()@.r ==> (res matches Err(e) && e.0@
                == "SRS profile mismatch"@),
            srs.g1_view().len() == domain.parameters()@.r && id@ != context_of(
                domain.parameters()@,
                srs.id_view(),
                scheme,
            ) ==> (res matches Err(e) && e.0@ == "header context mismatch"@),
            srs.g1_view().len() == domain.parameters()@.r && id@ == context_of(
                domain.parameters()@,
                srs.id_view(),
                scheme,
            ) && raw.len() != 48 * header_count(domain.parameters()@) ==> (res matches Err(e) && e.0@
                == "header byte length"@),
            res matches Ok(h) ==> {
                &&& h.points_view() == g1_chunks(raw@, header_count(domain.parameters()@) as int)
                &&& h.context_view() == id@
                &&& h.scheme_view() == scheme
            },
    {
        let p = domain.params();
        require(srs.r() == p.r(), "SRS profile mismatch")?;
        let expected = context(p, srs, scheme);
        require(same_digest(&id, &expected), "header context mismatch")?;
        let count = p.a() + if p.b() > 0 {
            2
        } else {
            0
        };
        require(raw.len() == count * 48, "header byte length")?;
        let points = decode_g1_points(raw, count)?;
        Ok(Header { points, context: id, scheme })
    }
}

/// Whether two digests are equal.
pub fn same_digest(a: &[u8; 32], b: &[u8; 32]) -> (r: bool)
    ensures
        r == (a@ == b@),
{
    let mut i: usize = 0;
    while i < 32
        invariant
            i <= 32,
            forall|t: int| 0 <= t < i ==> a@[t] == b@[t],
        decreases 32 - i,
    {
        if a[i] != b[i] {
            return false;
        }
        i = i + 1;
    }
    assert(a@ == b@);
    true
}


/// What `Header::verify` accepts: the context of these dimensions, SRS and scheme, an
/// SRS of the right size, one point per source group (and two for a residual), no
/// residual for the product baseline, and a residual of degree below `b`.
pub open spec fn header_accepts(
    points: Seq<Seq<u8>>,
    ctx: Seq<u8>,
    scheme: Scheme,
    v: ParamsView,
    g1s: Seq<Seq<u8>>,
    g2s: Seq<Seq<u8>>,
    srs_id: Seq<u8>,
) -> bool {
    &&& ctx == context_of(v, srs_id, scheme)
    &&& g1s.len() == v.r
    &&& points.len() == header_count(v)
    &&& scheme == Scheme::Product ==> v.b == 0
    &&& v.b > 0 ==> pairing_equal(points[v.a as int], g2s[v.r - v.b], points[v.a + 1int], g2s[0])
}

/// The commitment of group `j` derived from header points: a source point, or the
/// weighted source points plus the residual point times `B(gamma_j)`.
pub open spec fn derived(points: Seq<Seq<u8>>, v: ParamsView, table: Seq<Seq<int>>, j: int) -> Seq<u8> {
    if j < v.a {
        points[j]
    } else {
        let base = msm1(points.take(v.a as int), table[j]);
        if v.b > 0 {
            g1_sum(base, g1_scaled(points[v.a as int], outer_value(v, j)))
        } else {
            base
        }
    }
}

/// A header whose context, shape and residual degree were checked.
pub struct VerifiedHeader {
    header: Header,
    id: [u8; 32],
    params: Params,
}

impl Clone for VerifiedHeader {
    fn clone(&self) -> (r: Self)
        ensures
            r.points() == self.points(),
            r.id_view() == self.id_view(),
            r.params_view() == self.params_view(),
            r.scheme_view() == self.scheme_view(),
    {
        proof {
            use_type_invariant(self);
        }
        let header = self.header.clone();
        assert(g1_encodings(header.points@).len() == header.points@.len());
        assert(g1_encodings(self.header.points@).len() == self.header.points@.len());
        VerifiedHeader { header, id: self.id, params: self.params }
    }
}

impl VerifiedHeader {
    /// A verified header has the shape of its dimensions.
    #[verifier::type_invariant]
    closed spec fn shaped(self) -> bool {
        &&& self.header.points.len() == header_count(self.params@)
        &&& self.header.scheme == Scheme::Product ==> self.params@.b == 0
    }

    /// The header's points.
    pub closed spec fn points(self) -> Seq<Seq<u8>> {
        self.header.points_view()
    }

    /// The header's identity digest.
    pub closed spec fn id_view(self) -> Seq<u8> {
        self.id@
    }

    /// The dimensions it was verified for.
    pub closed spec fn params_view(self) -> ParamsView {
        self.params@
    }

    /// The scheme.
    pub closed spec fn scheme_view(self) -> Scheme {
        self.header.scheme
    }

    /// The identity digest: SHA-256 of the context and the payload.
    pub fn id(&self) -> (r: [u8; 32])
        ensures
            r@ == self.id_view(),
    {
        self.id
    }

    /// The scheme.
    pub fn scheme(&self) -> (s: Scheme)
        ensures
            s == self.scheme_view(),
    {
        self.header.scheme
    }

    /// The commitment of group `j`.
    pub fn derive(&self, domain: &Domain, j: usize) -> (res: Result<G1>)
        ensures
            res is Ok <==> j < domain.parameters()@.ell && self.params_view() == domain.parameters()@,
            j >= domain.parameters()@.ell ==> (res matches Err(e) && e.0@ == "group index"@),
            j < domain.parameters()@.ell && self.params_view() != domain.parameters()@ ==> (res matches Err(
                e,
            ) && e.0@ == "domain dimensions"@),
            res matches Ok(c) ==> c.encoding() == derived(
                self.points(),
                domain.parameters()@,
                domain.weight_table(),
                j as int,
            ),
    {
        proof {
            use_type_invariant(self);
        }
        let p = domain.params();
        let ghost v = p@;
        require(j < p.ell(), "group index")?;
        require(self.params.same(p), "domain dimensions")?;
        let points = &self.header.points;
        if j < p.a() {
            return Ok(points[j]);
        }
        let weights = domain.weights(j)?;
        let bases = &points.as_slice()[0..p.a()];
        assert(bases@ == points@.take(v.a as int));
        assert(g1_encodings(bases@) == self.points().take(v.a as int));
        let c = msm_g1(bases, weights)?;
        if p.b() > 0 {
            let rw = domain.residual_weight(j)?;
            let extra = points[p.a()].scale(rw);
            return Ok(c.add(&extra));
        }
        Ok(c)
    }
}

impl Header {
    /// Check the context, shape and residual degree against `domain` and `srs`.
    pub fn verify(self, domain: &Domain, srs: &PublicSrs) -> (res: Result<VerifiedHeader>)
        ensures
            res is Ok <==> header_accepts(
                self.points_view(),
                self.context_view(),
                self.scheme_view(),
                domain.parameters()@,
                srs.g1_view(),
                srs.g2_view(),
                srs.id_view(),
            ),
            self.context_view() != context_of(domain.parameters()@, srs.id_view(), self.scheme_view()) ==> (res matches Err(
                e,
            ) && e.0@ == "header context mismatch"@),
            res matches Err(e) ==> e.0@ == "header context mismatch"@ || e.0@ == "SRS profile mismatch"@
                || e.0@ == "header shape"@ || e.0@ == "product requires b=0"@ || e.0@
                == "residual degree check"@,
            res matches Ok(vh) ==> {
                &&& vh.points() == self.points_view()
                &&& vh.scheme_view() == self.scheme_view()
                &&& vh.params_view() == domain.parameters()@
                &&& vh.id_view() == sha256(self.context_view() + concat_encodings(self.points_view()))
            },
    {
        let p = domain.params();
        let ghost v = p@;
        let expected = context(p, srs, self.scheme);
        require(same_digest(&self.context, &expected), "header context mismatch")?;
        require(srs.r() == p.r(), "SRS profile mismatch")?;
        let count = p.a() + if p.b() > 0 {
            2
        } else {
            0
        };
        require(self.points.len() == count, "header shape")?;
        require(self.scheme != Scheme::Product || p.b() == 0, "product requires b=0")?;
        if p.b() > 0 {
            let g2 = srs.g2();
            let ok = pairing_product(self.points[p.a()], g2[p.r() - p.b()], self.points[p.a() + 1], g2[0]);
            require(ok, "residual degree check")?;
        }
        let mut input: Vec<u8> = Vec::new();
        push_bytes(&mut input, &self.context);
        append_g1(&mut input, self.points.as_slice());
        let id = sha256_digest(input.as_slice());
        Ok(VerifiedHeader { header: self, id, params: p })
    }
}

/// Commitments of groups derived from one verified header, computed on first use.
#[derive(Clone)]
pub struct GroupCache {
    header_id: [u8; 32],
    entries: Vec<Option<G1>>,
}

impl GroupCache {
    /// Every cached commitment is the one `h` derives over `d`.
    pub closed spec fn holds(self, h: VerifiedHeader, d: Domain) -> bool {
        forall|j: int|
            0 <= j < self.entries.len() ==> (#[trigger] self.entries@[j] matches Some(c) ==> c.encoding()
                == derived(h.points(), d.parameters()@, d.weight_table(), j))
    }

    /// The header identity it serves.
    pub closed spec fn header_view(self) -> Seq<u8> {
        self.header_id@
    }

    /// Number of group slots.
    pub closed spec fn slots(self) -> nat {
        self.entries@.len()
    }

    /// An empty cache for `h` with one slot per group.
    pub fn new(h: &VerifiedHeader, domain: &Domain) -> (c: Self)
        ensures
            c.holds(*h, *domain),
            c.header_view() == h.id_view(),
            c.slots() == domain.parameters()@.ell,
    {
        let ell = domain.params().ell();
        let mut entries: Vec<Option<G1>> = Vec::new();
        let mut j: usize = 0;
        while j < ell
            invariant
                j <= ell,
                entries.len() == j,
                forall|t: int| 0 <= t < j ==> #[trigger] entries@[t] is None,
            decreases ell - j,
        {
            entries.push(None);
            j = j + 1;
        }
        GroupCache { header_id: h.id(), entries }
    }

    /// The commitment of group `j`, derived once and then cached.
    pub fn get(&mut self, h: &VerifiedHeader, domain: &Domain, j: usize) -> (res: Result<G1>)
        ensures
            res is Ok <==> {
                &&& old(self).header_view() == h.id_view()
                &&& old(self).slots() == domain.parameters()@.ell
                &&& h.params_view() == domain.parameters()@
                &&& j < domain.parameters()@.ell
            },
            !(old(self).header_view() == h.id_view() && old(self).slots() == domain.parameters()@.ell
                && h.params_view() == domain.parameters()@) ==> (res matches Err(e) && e.0@ == "stale cache"@),
            res matches Err(e) ==> e.0@ == "stale cache"@ || e.0@ == "group index"@,
            final(self).header_view() == old(self).header_view(),
            final(self).slots() == old(self).slots(),
            old(self).holds(*h, *domain) ==> final(self).holds(*h, *domain),
            old(self).holds(*h, *domain) ==> (res matches Ok(c) ==> c.encoding() == derived(
                h.points(),
                domain.parameters()@,
                domain.weight_table(),
                j as int,
            )),
    {
        let p = domain.params();
        let hid = h.id();
        if !(same_digest(&self.header_id, &hid) && self.entries.len() == p.ell() && h.params.same(p)) {
            return Err(Error("stale cache".to_owned()));
        }
        if j >= self.entries.len() {
            return Err(Error("group index".to_owned()));
        }
        match self.entries[j] {
            Some(c) => {
                return Ok(c);
            },
            None => {},
        }
        let c = h.derive(domain, j)?;
        let ghost before = self.entries@;
        self.entries.set(j, Some(c));
        proof {
            assert forall|t: int| 0 <= t < self.entries.len() && old(self).holds(*h, *domain) implies (
            #[trigger] self.entries@[t] matches Some(e) ==> e.encoding() == derived(
                h.points(),
                domain.parameters()@,
                domain.weight_table(),
                t,
            )) by {
                if t != j {
                    assert(self.entries@[t] == before[t]);
                    assert(old(self).entries@[t] == before[t]);
                }
            }
        }
        Ok(c)
    }
}


/// The local coefficients of group `j` of a message.
pub open spec fn message_local(v: ParamsView, table: Seq<Seq<int>>, msg: Seq<int>, j: int) -> Seq<int> {
    if j < v.a {
        message_source(msg, v.r as int, j)
    } else {
        parity_local(v, table, message_sources(v, msg), message_residual(v, table, msg), j)
    }
}

/// A message encoded: its header, every group's local coefficients, and every group's
/// `m` symbols.
pub struct Encoded {
    /// The commitments.
    pub header: Header,
    /// Local coefficients per group.
    pub locals: Vec<Vec<Fe>>,
    /// Symbols per group.
    pub values: Vec<Vec<Fe>>,
}

/// Encode a message: commit, then evaluate every group's local polynomial.
pub fn encode(domain: &Domain, srs: &PublicSrs, scheme: Scheme, message: &[Fe]) -> (res: Result<Encoded>)
    ensures
        res is Ok <==> {
            let v = domain.parameters()@;
            &&& message.len() == v.k()
            &&& v.b == 0 || outer_value(v, v.a as int) != 0
            &&& srs.g1_view().len() == v.r
            &&& scheme != Scheme::Product || v.b == 0
        },
        message.len() != domain.parameters()@.k() ==> (res matches Err(e) && e.0@ == "message dimension"@),
        res matches Ok(e) ==> {
            let v = domain.parameters()@;
            let mv = fes(message@);
            let table = domain.weight_table();
            &&& e.header.points_view() == header_points(
                v,
                srs.g1_view(),
                message_sources(v, mv),
                message_residual(v, table, mv),
            )
            &&& e.header.context_view() == context_of(v, srs.id_view(), scheme)
            &&& e.header.scheme_view() == scheme
            &&& e.locals.len() == v.ell
            &&& e.values.len() == v.ell
            &&& forall|j: int| 0 <= j < v.ell ==> #[trigger] fes(e.locals@[j]@) == message_local(v, table, mv, j)
            &&& forall|j: int| 0 <= j < v.ell ==> (#[trigger] e.values@[j]).len() == v.m
            &&& forall|j: int, i: int|
                0 <= j < v.ell && 0 <= i < v.m ==> #[trigger] e.values@[j]@[i]@ == peval(
                    fes(e.locals@[j]@),
                    crate::domain::point_value(v, scheme, j, i),
                )
        },
{
    let p = domain.params();
    let ghost v = p@;
    let ghost mv = fes(message@);
    let ghost table = domain.weight_table();
    let polys = MessagePolys::new(domain, message)?;
    proof {
        assert forall|s: int| 0 <= s < v.a implies (#[trigger] polys.source_view()[s]).len() == v.r by {
            assert(polys.source_view()[s] == message_source(mv, v.r as int, s));
            assert(s * v.r + v.r <= v.a * v.r) by (nonlinear_arith)
                requires
                    0 <= s < v.a,
            ;
        }
    }
    let header = polys.commit(domain, srs, scheme)?;
    let locals = polys.locals(domain)?;
    proof {
        assert forall|j: int| 0 <= j < v.ell implies #[trigger] fes(locals@[j]@) == message_local(v, table, mv, j) by {
            if j >= v.a {
                assert(fes(locals@[v.a + (j - v.a)]@) == parity_local(
                    v,
                    table,
                    polys.source_view(),
                    polys.residual_view(),
                    v.a + (j - v.a),
                ));
            }
        }
        assert forall|t: int| 0 <= t < v.ell implies (#[trigger] message_local(v, table, mv, t)).len() == v.r by {
            if t < v.a {
                assert(t * v.r + v.r <= v.a * v.r) by (nonlinear_arith)
                    requires
                        0 <= t < v.a,
                ;
            }
        }
    }
    let mut values: Vec<Vec<Fe>> = Vec::new();
    let mut j: usize = 0;
    while j < locals.len()
        invariant
            v == p@,
            p == domain.parameters(),
            v.valid(),
            scheme != Scheme::Product || v.b == 0,
            locals.len() == v.ell,
            forall|t: int| 0 <= t < v.ell ==> #[trigger] fes(locals@[t]@) == message_local(v, table, mv, t),
            forall|t: int| 0 <= t < v.ell ==> (#[trigger] message_local(v, table, mv, t)).len() == v.r,
            j <= locals.len(),
            values.len() == j,
            forall|t: int| 0 <= t < j ==> (#[trigger] values@[t]).len() == v.m,
            forall|t: int, i: int|
                0 <= t < j && 0 <= i < v.m ==> #[trigger] values@[t]@[i]@ == peval(
                    fes(locals@[t]@),
                    crate::domain::point_value(v, scheme, t, i),
                ),
        decreases locals.len() - j,
    {
        assert(fes(locals@[j as int]@).len() == locals@[j as int]@.len());
        let row = domain.evaluate(scheme, j, locals[j].as_slice())?;
        values.push(row);
        j = j + 1;
    }
    Ok(Encoded { header, locals, values })
}


/// The points of group `j` at the given positions.
pub open spec fn group_points(v: ParamsView, scheme: Scheme, j: int, idx: Seq<usize>) -> Seq<int> {
    Seq::new(idx.len(), |t: int| point_value(v, scheme, j, idx[t] as int))
}

/// Whether `r` values at distinct positions of group `j` certify against a verified
/// header: their interpolant commits to the commitment the header derives for `j`.
pub open spec fn certifies(
    v: ParamsView,
    table: Seq<Seq<int>>,
    g1s: Seq<Seq<u8>>,
    h_points: Seq<Seq<u8>>,
    h_params: ParamsView,
    scheme: Scheme,
    j: int,
    idx: Seq<usize>,
    vals: Seq<int>,
) -> bool {
    let xs = group_points(v, scheme, j, idx);
    &&& idx.len() == v.r && vals.len() == v.r
    &&& 0 <= j < v.ell
    &&& forall|t: int| 0 <= t < idx.len() ==> (#[trigger] idx[t]) < v.m
    &&& scheme != Scheme::Product || v.b == 0
    &&& distinct(xs)
    &&& forall|t: int| 0 <= t < xs.len() ==> #[trigger] denominator(xs, t) != 0
    &&& h_params == v
    &&& v.r <= g1s.len()
    &&& msm1(g1s.take(v.r as int), lagrange(xs, vals)) == derived(h_points, v, table, j)
}

/// Group points at the given positions, checked.
pub(crate) fn points_at(domain: &Domain, scheme: Scheme, j: usize, indices: &[usize]) -> (res: Result<Vec<Fe>>)
    ensures
        res is Ok <==> {
            let v = domain.parameters()@;
            &&& j < v.ell
            &&& forall|t: int| 0 <= t < indices.len() ==> (#[trigger] indices@[t]) < v.m
            &&& scheme != Scheme::Product || v.b == 0
        },
        res matches Err(e) ==> e.0@ == "coordinate out of bounds"@ || e.0@ == "product baseline requires b=0"@,
        res matches Ok(xs) ==> fes(xs@) == group_points(domain.parameters()@, scheme, j as int, indices@),
{
    let ghost v = domain.parameters()@;
    let mut xs: Vec<Fe> = Vec::new();
    let mut t: usize = 0;
    while t < indices.len()
        invariant
            v == domain.parameters()@,
            t <= indices.len(),
            xs.len() == t,
            forall|u: int| 0 <= u < t ==> (#[trigger] indices@[u]) < v.m,
            j < v.ell || t == 0,
            t > 0 ==> (scheme != Scheme::Product || v.b == 0),
            forall|u: int| 0 <= u < t ==> #[trigger] xs@[u]@ == point_value(v, scheme, j as int, indices@[u] as int),
        decreases indices.len() - t,
    {
        let x = domain.point(scheme, j, indices[t])?;
        xs.push(x);
        t = t + 1;
    }
    if indices.len() == 0 {
        let p = domain.params();
        require(j < p.ell(), "coordinate out of bounds")?;
        require(scheme != Scheme::Product || p.b() == 0, "product baseline requires b=0")?;
    }
    assert(fes(xs@) == group_points(v, scheme, j as int, indices@));
    Ok(xs)
}

/// A group reconstructed from `r` verified values, with its interpolated coefficients.
pub struct CertifiedGroup {
    j: usize,
    scheme: Scheme,
    coeffs: Vec<Fe>,
    commitment: G1,
    context: [u8; 32],
    params: Params,
}

impl CertifiedGroup {
    /// A certified group lies in its dimensions.
    #[verifier::type_invariant]
    closed spec fn placed(self) -> bool {
        &&& self.j < self.params@.ell
        &&& self.coeffs.len() == self.params@.r
        &&& self.scheme == Scheme::Product ==> self.params@.b == 0
    }

    /// The group index.
    pub closed spec fn group(self) -> nat {
        self.j as nat
    }

    /// The scheme.
    pub closed spec fn scheme_view(self) -> Scheme {
        self.scheme
    }

    /// The local coefficients.
    pub closed spec fn coeffs_view(self) -> Seq<int> {
        fes(self.coeffs@)
    }

    /// The group commitment.
    pub closed spec fn commitment_view(self) -> Seq<u8> {
        self.commitment.encoding()
    }

    /// The context it was certified under.
    pub closed spec fn context_view(self) -> Seq<u8> {
        self.context@
    }

    /// The dimensions.
    pub closed spec fn params_view(self) -> ParamsView {
        self.params@
    }

    /// Certify group `j` from `r` values at distinct positions.
    pub fn from_values(
        domain: &Domain,
        srs: &PublicSrs,
        h: &VerifiedHeader,
        j: usize,
        indices: &[usize],
        values: &[Fe],
    ) -> (res: Result<Self>)
        ensures
            res is Ok <==> certifies(
                domain.parameters()@,
                domain.weight_table(),
                srs.g1_view(),
                h.points(),
                h.params_view(),
                h.scheme_view(),
                j as int,
                indices@,
                fes(values@),
            ),
            !(indices.len() == domain.parameters()@.r && values.len() == domain.parameters()@.r) ==> (res matches Err(
                e,
            ) && e.0@ == "certification requires r values"@),
            res matches Ok(c) ==> {
                let v = domain.parameters()@;
                &&& c.coeffs_view() == lagrange(group_points(v, h.scheme_view(), j as int, indices@), fes(values@))
                &&& c.commitment_view() == derived(h.points(), v, domain.weight_table(), j as int)
                &&& c.group() == j
                &&& c.scheme_view() == h.scheme_view()
                &&& c.context_view() == context_of(v, srs.id_view(), h.scheme_view())
                &&& c.params_view() == v
            },
    {
        let p = domain.params();
        let ghost v = p@;
        require(indices.len() == p.r() && values.len() == p.r(), "certification requires r values")?;
        let scheme = h.scheme();
        let xs = points_at(domain, scheme, j, indices)?;
        let coeffs = interpolate(xs.as_slice(), values)?;
        let commitment = h.derive(domain, j)?;
        let c = srs.commit(coeffs.as_slice())?;
        require(c.same(&commitment), "certification commitment mismatch")?;
        let context = context(p, srs, scheme);
        Ok(CertifiedGroup { j, scheme, coeffs, commitment, context, params: p })
    }

    /// Every symbol of the group.
    pub fn recover(&self, domain: &Domain) -> (res: Result<Vec<Fe>>)
        ensures
            res is Ok <==> self.params_view() == domain.parameters()@,
            res matches Err(e) ==> e.0@ == "recovery domain mismatch"@,
            res matches Ok(vals) ==> {
                let v = domain.parameters()@;
                &&& vals.len() == v.m
                &&& forall|i: int|
                    0 <= i < v.m ==> #[trigger] vals@[i]@ == peval(
                        self.coeffs_view(),
                        point_value(v, self.scheme_view(), self.group() as int, i),
                    )
            },
    {
        proof {
            use_type_invariant(self);
        }
        require(self.params.same(domain.params()), "recovery domain mismatch")?;
        domain.evaluate(self.scheme, self.j, self.coeffs.as_slice())
    }

    /// Open the group at the given positions for a requester.
    pub fn serve(&self, domain: &Domain, srs: &PublicSrs, indices: &[usize]) -> (res: Result<Opening>)
        ensures
            self.context_view() != context_of(domain.parameters()@, srs.id_view(), self.scheme_view()) ==> (res matches Err(
                e,
            ) && e.0@ == "serving context mismatch"@),
            ({
                let v = domain.parameters()@;
                &&& self.context_view() == context_of(v, srs.id_view(), self.scheme_view())
                &&& self.group() < v.ell
                &&& forall|t: int| 0 <= t < indices.len() ==> (#[trigger] indices@[t]) < v.m
                &&& self.scheme_view() != Scheme::Product || v.b == 0
                &&& self.coeffs_view().len() <= srs.g1_view().len()
                &&& indices.len() == 1 || (indices.len() == srs.g1_view().len() && distinct(
                    group_points(v, self.scheme_view(), self.group() as int, indices@),
                ))
            }) ==> res is Ok,
            res matches Ok(o) ==> opening_of(
                o,
                self.coeffs_view(),
                group_points(domain.parameters()@, self.scheme_view(), self.group() as int, indices@),
                srs.g1_view(),
            ),
    {
        proof {
            use_type_invariant(self);
        }
        let expected = context(domain.params(), srs, self.scheme);
        require(same_digest(&self.context, &expected), "serving context mismatch")?;
        let xs = points_at(domain, self.scheme, self.j, indices)?;
        assert(fes(xs@).len() == xs.len());
        assert(xs.len() == indices.len());
        srs.open(self.coeffs.as_slice(), xs.as_slice())
    }

    /// The group commitment.
    pub fn commitment(&self) -> (c: G1)
        ensures
            c.encoding() == self.commitment_view(),
    {
        self.commitment
    }

    /// The local coefficients.
    pub fn coefficients(&self) -> (c: &[Fe])
        ensures
            fes(c@) == self.coeffs_view(),
    {
        self.coeffs.as_slice()
    }
}


/// Whether `x` occurs in `s`.
pub(crate) fn holds_index(s: &[usize], x: usize) -> (r: bool)
    ensures
        r == s@.contains(x),
{
    let mut i: usize = 0;
    while i < s.len()
        invariant
            i <= s.len(),
            forall|t: int| 0 <= t < i ==> s@[t] != x,
        decreases s.len() - i,
    {
        if s[i] == x {
            assert(s@[i as int] == x);
            return true;
        }
        i = i + 1;
    }
    false
}

/// The proof point of a single-value response for a group of `r` positions.
pub open spec fn single_proof(raw: Seq<u8>, r: int) -> Seq<u8> {
    if 1 < r {
        g1_decoded(raw.subrange(32, 80))
    } else {
        g1_identity_encoding()
    }
}

/// Verified single values of one group, collected one response at a time.
pub struct StreamingCollector {
    j: usize,
    indices: Vec<usize>,
    values: Vec<Fe>,
}

impl StreamingCollector {
    /// The group collected.
    pub closed spec fn group(self) -> nat {
        self.j as nat
    }

    /// Accepted positions, in order.
    pub closed spec fn indices_view(self) -> Seq<usize> {
        self.indices@
    }

    /// Accepted values, in order.
    pub closed spec fn values_view(self) -> Seq<int> {
        fes(self.values@)
    }

    /// A collector for group `j`.
    pub fn new(j: usize) -> (c: Self)
        ensures
            c.group() == j,
            c.indices_view().len() == 0,
            c.values_view().len() == 0,
    {
        StreamingCollector { j, indices: Vec::new(), values: Vec::new() }
    }

    /// Verify a single-value response for a new position and keep it.
    pub fn accept(
        &mut self,
        domain: &Domain,
        srs: &PublicSrs,
        h: &VerifiedHeader,
        cache: &mut GroupCache,
        index: usize,
        raw: &[u8],
    ) -> (res: Result<()>)
        ensures
            final(self).group() == old(self).group(),
            res is Err ==> final(self).indices_view() == old(self).indices_view() && final(self).values_view()
                == old(self).values_view(),
            !(old(self).indices_view().len() < domain.parameters()@.r && !old(self).indices_view().contains(
                index,
            )) ==> (res matches Err(e) && e.0@ == "collector duplicate or full"@),
            res is Ok ==> {
                &&& final(self).indices_view() == old(self).indices_view().push(index)
                &&& final(self).values_view().len() == old(self).values_view().len() + 1
                &&& final(self).values_view().drop_last() == old(self).values_view()
                &&& final(self).values_view().last() == le_value(chunk(raw@, 0))
            },
            final(cache).header_view() == old(cache).header_view(),
            final(cache).slots() == old(cache).slots(),
            old(cache).holds(*h, *domain) ==> final(cache).holds(*h, *domain),
            old(cache).holds(*h, *domain) && res is Ok ==> accepts(
                srs.g1_view(),
                srs.g2_view(),
                derived(h.points(), domain.parameters()@, domain.weight_table(), old(self).group() as int),
                seq![point_value(domain.parameters()@, h.scheme_view(), old(self).group() as int, index as int)],
                seq![final(self).values_view().last()],
                single_proof(raw@, srs.g1_view().len() as int),
            ),
    {
        let p = domain.params();
        require(
            self.indices.len() < p.r() && !holds_index(self.indices.as_slice(), index),
            "collector duplicate or full",
        )?;
        let x = domain.point(h.scheme(), self.j, index)?;
        let opening = Opening::from_bytes(raw, 1, srs.r())?;
        let c = cache.get(h, domain, self.j)?;
        let xs = vec![x];
        srs.verify(c, xs.as_slice(), &opening)?;
        let v = opening.values[0];
        assert(fes(opening.values@)[0] == le_value(chunk(raw@, 0)));
        let ghost before = self.values@;
        self.indices.push(index);
        self.values.push(v);
        proof {
            assert(fes(self.values@).drop_last() == fes(before));
            assert(fes(self.values@).last() == v@);
            assert(fes(xs@) == seq![x@]);
            assert(fes(opening.values@) == seq![v@]);
        }
        Ok(())
    }

    /// Certify the group once `r` values were accepted.
    pub fn finish(self, domain: &Domain, srs: &PublicSrs, h: &VerifiedHeader) -> (res: Result<CertifiedGroup>)
        ensures
            self.indices_view().len() != domain.parameters()@.r ==> (res matches Err(e) && e.0@
                == "insufficient accepted values"@),
            res is Ok <==> self.indices_view().len() == domain.parameters()@.r && certifies(
                domain.parameters()@,
                domain.weight_table(),
                srs.g1_view(),
                h.points(),
                h.params_view(),
                h.scheme_view(),
                self.group() as int,
                self.indices_view(),
                self.values_view(),
            ),
            res matches Ok(c) ==> c.coeffs_view() == lagrange(
                group_points(domain.parameters()@, h.scheme_view(), self.group() as int, self.indices_view()),
                self.values_view(),
            ) && c.commitment_view() == derived(
                h.points(),
                domain.parameters()@,
                domain.weight_table(),
                self.group() as int,
            ),
    {
        require(self.indices.len() == domain.params().r(), "insufficient accepted values")?;
        CertifiedGroup::from_values(domain, srs, h, self.j, self.indices.as_slice(), self.values.as_slice())
    }
}

} // verus!
