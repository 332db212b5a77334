//! Subproduct trees: many-point evaluation by repeated remainders, and interpolation
//! through the tree.
use crate::error::{require, Error, Result};
use crate::fast_polynomial::{division_identity, multiply, remainder, resized, trim};
use crate::field::{copy_elements, modulus, Fe};
use crate::polynomial::{
    distinct, divide_linear, fes, fr_batch_inversion, lemma_prod_root, lemma_psum_vanish,
    occurs_before, peval, prod, psum, vanishing,
};
use vstd::arithmetic::div_mod::*;
use vstd::prelude::*;

verus! {

/// Number of points under one leaf of a product tree.
pub const LEAF: usize = 32;

/// The number of points under one node on level `l`: `LEAF * 2^l`.
pub open spec fn span(l: int) -> int
    decreases l,
{
    if l <= 0 {
        32
    } else {
        2 * span(l - 1)
    }
}

/// Spans are positive and double from one level to the next.
pub proof fn lemma_span(l: int)
    requires
        l >= 0,
    ensures
        span(l) >= 32,
        span(l + 1) == 2 * span(l),
    decreases l,
{
    if l > 0 {
        lemma_span(l - 1);
    }
}

/// The node above point `t` on level `l` exists and vanishes at that point.
pub open spec fn root_at(level: Seq<Vec<Fe>>, l: int, xs: Seq<int>, t: int) -> bool {
    let i = t / span(l);
    &&& 0 <= i < level.len()
    &&& peval(fes(level[i]@), xs[t]) == 0
}

/// Level `l` of a tree over `xs`: every point has a vanishing node above it, and every
/// node covers at least one point with at most `span(l)` roots.
pub open spec fn level_ok(level: Seq<Vec<Fe>>, l: int, xs: Seq<int>) -> bool {
    &&& forall|t: int| 0 <= t < xs.len() ==> #[trigger] root_at(level, l, xs, t)
    &&& forall|i: int|
        0 <= i < level.len() ==> (#[trigger] level[i]).len() <= span(l) + 1 && i * span(l) < xs.len()
}

/// The remainder above point `t` on level `l` takes the value of `p` there.
pub open spec fn agrees(rems: Seq<Vec<Fe>>, l: int, xs: Seq<int>, p: Seq<int>, t: int) -> bool {
    let i = t / span(l);
    &&& 0 <= i < rems.len()
    &&& peval(fes(rems[i]@), xs[t]) == peval(p, xs[t])
}

/// A remainder modulo a polynomial that vanishes at `x` takes the value of the dividend at `x`.
pub proof fn lemma_remainder_at_root(a: Seq<int>, q: Seq<int>, b: Seq<int>, r: Seq<int>, x: int)
    requires
        division_identity(a, q, b, r),
        peval(b, x) == 0,
    ensures
        peval(r, x) == peval(a, x),
{
    let m = modulus();
    assert(peval(a, x) == (psum(q, x) * psum(b, x) + psum(r, x)) % m);
    lemma_mul_mod_noop_right(psum(q, x), psum(b, x), m);
    assert(psum(q, x) * 0 == 0);
    lemma_add_mod_noop(psum(q, x) * psum(b, x), psum(r, x), m);
    lemma_mod_twice(psum(r, x), m);
}

/// The entries `start..end` of `xs`.
fn chunk(xs: &[Fe], start: usize, end: usize) -> (c: Vec<Fe>)
    requires
        start <= end <= xs.len(),
    ensures
        c@ == xs@.subrange(start as int, end as int),
{
    let mut c: Vec<Fe> = Vec::new();
    let mut i = start;
    while i < end
        invariant
            start <= i <= end,
            end <= xs.len(),
            c@ == xs@.subrange(start as int, i as int),
        decreases end - i,
    {
        c.push(xs[i]);
        i = i + 1;
    }
    c
}

/// A subproduct tree over distinct points: level 0 holds the vanishing polynomial of each
/// run of `LEAF` consecutive points, each higher level the products of pairs below it, and
/// the last level one node.
pub struct ProductTree {
    xs: Vec<Fe>,
    levels: Vec<Vec<Vec<Fe>>>,
}

impl ProductTree {
    /// The points of the tree, in order.
    pub closed spec fn points(&self) -> Seq<int> {
        fes(self.xs@)
    }

    /// The tree is built over its points as described on the type.
    pub closed spec fn wf(&self) -> bool {
        let n = self.xs.len();
        let top = self.levels.len() - 1;
        &&& 0 < n <= 1048576
        &&& distinct(fes(self.xs@))
        &&& self.levels.len() >= 1
        &&& self.levels@[top].len() == 1
        &&& forall|l: int|
            0 <= l < self.levels.len() ==> #[trigger] level_ok(self.levels@[l]@, l, fes(self.xs@))
        &&& forall|l: int|
            0 <= l < self.levels.len() ==> (#[trigger] self.levels@[l]).len() == (n - 1) / span(l) + 1
    }

    /// Builds the tree over `xs`: fails on no points, more than `2^20` points, or a
    /// repeated point.
    pub fn new(xs: &[Fe]) -> (res: Result<ProductTree>)
        ensures
            res is Ok <==> (0 < xs.len() <= 1048576 && distinct(fes(xs@))),
            res matches Ok(tree) ==> tree.wf() && tree.points() == fes(xs@),
            res matches Err(e) ==> if 0 < xs.len() <= 1048576 {
                e.0@ == "duplicate coordinates"@
            } else {
                e.0@ == "product tree size"@
            },
    {
        require(xs.len() > 0 && xs.len() <= 1048576, "product tree size")?;
        let n = xs.len();
        let ghost pts = fes(xs@);
        let mut i: usize = 0;
        while i < n
            invariant
                n == xs.len(),
                0 < n <= 1048576,
                pts == fes(xs@),
                i <= n,
                distinct(pts.take(i as int)),
            decreases n - i,
        {
            if occurs_before(xs, i, xs[i]) {
                proof {
                    let u = choose|u: int| 0 <= u < i && xs@[u]@ == xs@[i as int]@;
                    assert(pts[u] == pts[i as int]);
                }
                return Err(Error("duplicate coordinates".to_owned()));
            }
            proof {
                let nt = pts.take(i + 1);
                assert forall|u: int, v: int| 0 <= u < v < i + 1 implies #[trigger] nt[u] != #[trigger] nt[v] by {
                    if v < i {
                        assert(pts.take(i as int)[u] != pts.take(i as int)[v]);
                    } else {
                        assert(xs@[u]@ != xs@[i as int]@);
                    }
                }
            }
            i = i + 1;
        }
        assert(pts.take(n as int) =~= pts);
        let mut leaves: Vec<Vec<Fe>> = Vec::new();
        let mut start: usize = 0;
        while start < n
            invariant
                n == xs.len(),
                0 < n <= 1048576,
                pts == fes(xs@),
                distinct(pts),
                start == 32 * leaves.len(),
                start < n + 32,
                forall|t: int| 0 <= t < n && t < start ==> #[trigger] root_at(leaves@, 0, pts, t),
                forall|j: int|
                    0 <= j < leaves.len() ==> (#[trigger] leaves@[j]).len() <= 33 && j * 32 < n,
            decreases n + 32 - start,
        {
            let end = if n - start < 32 {
                n
            } else {
                start + 32
            };
            let c = chunk(xs, start, end);
            let ghost cv = fes(c@);
            assert(distinct(cv)) by {
                assert forall|u: int, v: int| 0 <= u < v < cv.len() implies cv[u] != cv[v] by {
                    assert(cv[u] == pts[start + u]);
                    assert(cv[v] == pts[start + v]);
                }
            }
            let z = match vanishing(c.as_slice()) {
                Ok(z) => z,
                Err(e) => {
                    return Err(e);
                },
            };
            let ghost old_leaves = leaves@;
            leaves.push(z);
            proof {
                lemma_psum_vanish(cv, 0);
                assert forall|t: int| 0 <= t < n && t < start + 32 implies #[trigger] root_at(leaves@, 0, pts, t) by {
                    if t < start {
                        assert(root_at(old_leaves, 0, pts, t));
                        assert(leaves@[t / 32] == old_leaves[t / 32]);
                    } else {
                        assert(t / 32 == old_leaves.len());
                        assert(cv[t - start] == pts[t]);
                        lemma_prod_root(cv, pts[t], t - start);
                        assert(peval(fes(z@), pts[t]) == prod(cv, pts[t]) % modulus());
                    }
                }
                assert forall|j: int| 0 <= j < leaves.len() implies (#[trigger] leaves@[j]).len() <= 33 && j * 32 < n by {
                    if j < old_leaves.len() {
                        assert(leaves@[j] == old_leaves[j]);
                    }
                }
            }
            start = start + 32;
        }
        assert(leaves.len() == (n - 1) / 32 + 1);
        let mut levels: Vec<Vec<Vec<Fe>>> = Vec::new();
        levels.push(leaves);
        proof {
            assert(level_ok(levels@[0]@, 0, pts)) by {
                assert forall|t: int| 0 <= t < pts.len() implies #[trigger] root_at(levels@[0]@, 0, pts, t) by {
                    assert(root_at(leaves@, 0, pts, t));
                }
            }
        }
        while levels[levels.len() - 1].len() > 1
            invariant
                n == xs.len(),
                0 < n <= 1048576,
                pts == fes(xs@),
                distinct(pts),
                levels.len() >= 1,
                levels@[levels.len() - 1].len() >= 1,
                forall|l: int| 0 <= l < levels.len() ==> #[trigger] level_ok(levels@[l]@, l, pts),
                forall|l: int| 0 <= l < levels.len() ==> (#[trigger] levels@[l]).len() == (n - 1) / span(l) + 1,
            decreases levels@[levels.len() - 1].len(),
        {
            let l = levels.len() - 1;
            let next = Self::pair_level(&levels[l], Ghost(l as int), Ghost(pts));
            let ghost old_levels = levels@;
            levels.push(next);
            proof {
                assert forall|k: int| 0 <= k < levels.len() implies #[trigger] level_ok(levels@[k]@, k, pts) by {
                    if k < old_levels.len() {
                        assert(levels@[k] == old_levels[k]);
                    }
                }
                let li = l as int;
                lemma_span(li);
                assert(old_levels[li].len() - 1 == (n - 1) / span(li));
                lemma_div_denominator(n - 1, span(li), 2);
                assert forall|k: int| 0 <= k < levels.len() implies (#[trigger] levels@[k]).len() == (n - 1) / span(k) + 1 by {
                    if k < old_levels.len() {
                        assert(levels@[k] == old_levels[k]);
                    }
                }
            }
        }
        let tree = ProductTree { xs: copy_elements(xs), levels };
        proof {
            assert(fes(tree.xs@) == pts);
            assert(tree.levels@[tree.levels.len() - 1].len() == 1);
            assert forall|l: int| 0 <= l < tree.levels.len() implies #[trigger] level_ok(tree.levels@[l]@, l, fes(tree.xs@)) by {
                assert(level_ok(levels@[l]@, l, pts));
            }
            assert forall|l: int| 0 <= l < tree.levels.len() implies (#[trigger] tree.levels@[l]).len() == (n - 1) / span(l) + 1 by {
                assert(levels@[l].len() == (n - 1) / span(l) + 1);
            }
            assert(tree.wf());
            assert(tree.points() == fes(xs@));
        }
        Ok(tree)
    }

    /// The values of `p` at the points of the tree, by remainders down the tree.
    pub fn evaluate(&self, p: &[Fe]) -> (res: Result<Vec<Fe>>)
        requires
            self.wf(),
        ensures
            res matches Ok(v) ==> {
                &&& v.len() == self.points().len()
                &&& forall|t: int| 0 <= t < v.len() ==> #[trigger] v@[t]@ == peval(fes(p@), self.points()[t])
            },
            res matches Err(e) ==> (e.0@ == "zero divisor"@ || e.0@ == "noninvertible series"@ || e.0@
                == "convolution size limit"@ || e.0@ == "convolution size overflow"@ || e.0@
                == "fast division identity"@),
    {
        let ghost pts = fes(self.xs@);
        let ghost pv = fes(p@);
        let n = self.xs.len();
        let top = self.levels.len() - 1;
        let first = remainder(p, &self.levels[top][0])?;
        proof {
            assert(level_ok(self.levels@[top as int]@, top as int, pts));
            lemma_span(top as int);
            assert forall|t: int| 0 <= t < n implies #[trigger] agrees(seq![first], top as int, pts, pv, t) by {
                assert(root_at(self.levels@[top as int]@, top as int, pts, t));
                assert(t / span(top as int) == 0);
                let q = choose|q: Seq<int>| #[trigger] division_identity(pv, q, fes(self.levels@[top as int]@[0]@), fes(first@));
                lemma_remainder_at_root(pv, q, fes(self.levels@[top as int]@[0]@), fes(first@), pts[t]);
            }
        }
        let mut rems: Vec<Vec<Fe>> = Vec::new();
        rems.push(first);
        assert(rems@ =~= seq![first]);
        let mut l = top;
        while l > 0
            invariant
                self.wf(),
                pts == fes(self.xs@),
                pv == fes(p@),
                n == self.xs.len(),
                top == self.levels.len() - 1,
                l <= top,
                rems.len() == self.levels@[l as int].len(),
                forall|t: int| 0 <= t < n ==> #[trigger] agrees(rems@, l as int, pts, pv, t),
            decreases l,
        {
            let level = &self.levels[l - 1];
            let ghost lo = (l - 1) as int;
            proof {
                lemma_span(lo);
                assert(level_ok(self.levels@[lo]@, lo, pts));
                assert(level_ok(self.levels@[l as int]@, l as int, pts));
            }
            let mut next: Vec<Vec<Fe>> = Vec::new();
            let mut i: usize = 0;
            while i < level.len()
                invariant
                    self.wf(),
                    pts == fes(self.xs@),
                    pv == fes(p@),
                    n == self.xs.len(),
                    lo == l - 1,
                    0 < l <= top,
                    top == self.levels.len() - 1,
                    level@ == self.levels@[lo]@,
                    span(lo) >= 32,
                    span(l as int) == 2 * span(lo),
                    level_ok(level@, lo, pts),
                    level_ok(self.levels@[l as int]@, l as int, pts),
                    rems.len() == self.levels@[l as int].len(),
                    forall|t: int| 0 <= t < n ==> #[trigger] agrees(rems@, l as int, pts, pv, t),
                    i <= level.len(),
                    next.len() == i,
                    forall|t: int| 0 <= t < n && t / span(lo) < i ==> #[trigger] agrees(next@, lo, pts, pv, t),
                decreases level.len() - i,
            {
                proof {
                    let ii = i as int;
                    let t0 = span(lo) * ii;
                    assert(level@[ii].len() <= span(lo) + 1 && ii * span(lo) < n);
                    assert(t0 == ii * span(lo)) by (nonlinear_arith)
                        requires
                            t0 == span(lo) * ii,
                    ;
                    lemma_div_multiples_vanish(ii, span(lo));
                    assert(t0 / span(lo) == ii);
                    lemma_div_denominator(t0, span(lo), 2);
                    assert(root_at(self.levels@[l as int]@, l as int, pts, t0));
                    assert(t0 / span(l as int) == ii / 2);
                }
                let r = remainder(&rems[i / 2], &level[i])?;
                let ghost old_next = next@;
                next.push(r);
                proof {
                    let ii = i as int;
                    assert forall|t: int| 0 <= t < n && t / span(lo) < ii + 1 implies #[trigger] agrees(next@, lo, pts, pv, t) by {
                        if t / span(lo) < ii {
                            assert(agrees(old_next, lo, pts, pv, t));
                            assert(next@[t / span(lo)] == old_next[t / span(lo)]);
                        } else {
                            lemma_div_denominator(t, span(lo), 2);
                            assert(t / span(l as int) == ii / 2);
                            assert(agrees(rems@, l as int, pts, pv, t));
                            assert(root_at(level@, lo, pts, t));
                            let q = choose|q: Seq<int>| #[trigger] division_identity(fes(rems@[ii / 2]@), q, fes(level@[ii]@), fes(r@));
                            lemma_remainder_at_root(fes(rems@[ii / 2]@), q, fes(level@[ii]@), fes(r@), pts[t]);
                        }
                    }
                }
                i = i + 1;
            }
            proof {
                assert forall|t: int| 0 <= t < n implies #[trigger] agrees(next@, lo, pts, pv, t) by {
                    assert(root_at(level@, lo, pts, t));
                }
            }
            rems = next;
            l = l - 1;
        }
        let mut out: Vec<Fe> = Vec::new();
        let mut t: usize = 0;
        while t < n
            invariant
                pts == fes(self.xs@),
                pv == fes(p@),
                n == self.xs.len(),
                span(0) == 32,
                forall|s: int| 0 <= s < n ==> #[trigger] agrees(rems@, 0, pts, pv, s),
                t <= n,
                out.len() == t,
                forall|s: int| 0 <= s < t ==> #[trigger] out@[s]@ == peval(pv, pts[s]),
            decreases n - t,
        {
            proof {
                assert(agrees(rems@, 0, pts, pv, t as int));
            }
            let v = crate::polynomial::evaluate(rems[t / 32].as_slice(), self.xs[t]);
            out.push(v);
            t = t + 1;
        }
        Ok(out)
    }

    /// The polynomial through the values `ys` at the points of the tree, by Lagrange
    /// weights from the derivative of the root and products up the tree, padded or cut to
    /// one coefficient per point.
    pub fn interpolate(&self, ys: &[Fe]) -> (res: Result<Vec<Fe>>)
        requires
            self.wf(),
        ensures
            ys.len() != self.points().len() ==> (res matches Err(e) && e.0@
                == "tree interpolation lengths"@),
            res matches Ok(out) ==> out.len() == ys.len(),
            res matches Err(e) ==> (e.0@ == "tree interpolation lengths"@ || e.0@ == "tree derivative zero"@
                || e.0@ == "zero divisor"@ || e.0@ == "noninvertible series"@ || e.0@
                == "convolution size limit"@ || e.0@ == "convolution size overflow"@ || e.0@
                == "fast division identity"@),
    {
        require(ys.len() == self.xs.len(), "tree interpolation lengths")?;
        let n = self.xs.len();
        let top = self.levels.len() - 1;
        let root = &self.levels[top][0];
        let mut derivative: Vec<Fe> = Vec::new();
        let mut i: usize = 1;
        while i < root.len()
            invariant
                1 <= i,
                i <= root.len() || i == 1,
            decreases root.len() - i,
        {
            derivative.push(root[i].mul(Fe::from_u64(i as u64)));
            i = i + 1;
        }
        let mut inverse = self.evaluate(derivative.as_slice())?;
        let mut k: usize = 0;
        while k < inverse.len()
            invariant
                k <= inverse.len(),
                ys.len() == self.xs.len(),
            decreases inverse.len() - k,
        {
            if inverse[k].is_zero() {
                return Err(Error("tree derivative zero".to_owned()));
            }
            k = k + 1;
        }
        fr_batch_inversion(&mut inverse);
        proof {
            assert(level_ok(self.levels@[0]@, 0, fes(self.xs@)));
            assert(self.levels@[0].len() == (n - 1) / 32 + 1);
        }
        let mut polys: Vec<Vec<Fe>> = Vec::new();
        let mut leaf: usize = 0;
        while leaf < self.levels[0].len()
            invariant
                self.wf(),
                n == self.xs.len(),
                n == ys.len(),
                n == inverse.len(),
                0 < n <= 1048576,
                self.levels@[0].len() == (n - 1) / 32 + 1,
                leaf <= self.levels@[0].len(),
                polys.len() == leaf,
            decreases self.levels@[0].len() - leaf,
        {
            let start = 32 * leaf;
            let end = if n - start < 32 {
                n
            } else {
                start + 32
            };
            let z = &self.levels[0][leaf];
            let mut out: Vec<Fe> = Vec::new();
            while out.len() < end - start
                invariant
                    out.len() <= end - start,
                decreases end - start - out.len(),
            {
                out.push(Fe::zero());
            }
            let mut i = start;
            while i < end
                invariant
                    start <= i <= end,
                    end <= n,
                    n == self.xs.len(),
                    n == ys.len(),
                    n == inverse.len(),
                    out.len() == end - start,
                decreases end - i,
            {
                let (q, _) = divide_linear(z.as_slice(), self.xs[i]);
                let mut k: usize = 0;
                while k < out.len() && k < q.len()
                    invariant
                        out.len() == end - start,
                        i < n,
                        n == ys.len(),
                        n == inverse.len(),
                    decreases out.len() - k,
                {
                    let c = q[k].mul(ys[i]).mul(inverse[i]);
                    let sum = out[k].add(c);
                    out.set(k, sum);
                    k = k + 1;
                }
                i = i + 1;
            }
            polys.push(out);
            leaf = leaf + 1;
        }
        let mut l: usize = 0;
        while l < top
            invariant
                self.wf(),
                n == self.xs.len(),
                0 < n <= 1048576,
                top == self.levels.len() - 1,
                l <= top,
                ys.len() == self.xs.len(),
                polys.len() == self.levels@[l as int].len(),
            decreases top - l,
        {
            let level = &self.levels[l];
            proof {
                lemma_span(l as int);
                assert(level.len() == (n - 1) / span(l as int) + 1);
                assert(self.levels@[l + 1].len() == (n - 1) / span(l + 1) + 1);
                lemma_div_denominator(n - 1, span(l as int), 2);
                assert((n - 1) / span(l as int) <= n - 1) by (nonlinear_arith)
                    requires
                        span(l as int) >= 1,
                        n - 1 >= 0,
                ;
            }
            let mut next: Vec<Vec<Fe>> = Vec::new();
            let mut j: usize = 0;
            while 2 * j < polys.len()
                invariant
                    polys.len() == level.len(),
                    polys.len() <= 1048576,
                    ys.len() == self.xs.len(),
                    next.len() == j,
                    2 * j <= polys.len() + 1,
                decreases polys.len() + 1 - 2 * j,
            {
                let i = 2 * j;
                if i + 1 == polys.len() {
                    next.push(copy_elements(polys[i].as_slice()));
                } else {
                    let left = multiply(polys[i].as_slice(), level[i + 1].as_slice())?;
                    let right = multiply(polys[i + 1].as_slice(), level[i].as_slice())?;
                    let width = if left.len() < right.len() {
                        right.len()
                    } else {
                        left.len()
                    };
                    let mut sum = resized(left.as_slice(), width);
                    let mut k: usize = 0;
                    while k < right.len()
                        invariant
                            sum.len() == width,
                            right.len() <= width,
                        decreases right.len() - k,
                    {
                        let s = sum[k].add(right[k]);
                        sum.set(k, s);
                        k = k + 1;
                    }
                    next.push(trim(sum));
                }
                j = j + 1;
            }
            polys = next;
            l = l + 1;
        }
        proof {
            assert(self.levels@[top as int].len() == 1);
        }
        let out = resized(polys[0].as_slice(), ys.len());
        Ok(out)
    }

    /// The level above `cur`: products of neighbouring pairs, a last odd node copied.
    fn pair_level(cur: &Vec<Vec<Fe>>, Ghost(l): Ghost<int>, Ghost(pts): Ghost<Seq<int>>) -> (next: Vec<Vec<Fe>>)
        requires
            l >= 0,
            0 < pts.len() <= 1048576,
            cur.len() > 1,
            level_ok(cur@, l, pts),
        ensures
            level_ok(next@, l + 1, pts),
            1 <= next.len() < cur.len(),
            next.len() == (cur.len() - 1) / 2 + 1,
    {
        proof {
            lemma_span(l);
            assert(cur@[1].len() <= span(l) + 1 && 1 * span(l) < pts.len());
            let last: int = cur.len() - 1;
            assert(0 <= last < cur.len());
            assert(cur@[last].len() <= span(l) + 1);
            assert(last * span(l) < pts.len());
            assert(cur.len() <= 1048576) by (nonlinear_arith)
                requires
                    last * span(l) < pts.len(),
                    span(l) >= 32,
                    pts.len() <= 1048576,
                    last == cur.len() - 1,
            ;
        }
        let mut next: Vec<Vec<Fe>> = Vec::new();
        let mut j: usize = 0;
        while 2 * j < cur.len()
            invariant
                l >= 0,
                0 < pts.len() <= 1048576,
                span(l) >= 32,
                span(l + 1) == 2 * span(l),
                span(l) < pts.len(),
                cur.len() > 1,
                cur.len() <= 1048576,
                level_ok(cur@, l, pts),
                next.len() == j,
                2 * j <= cur.len() + 1,
                forall|t: int| 0 <= t < pts.len() && (t / span(l)) / 2 < j ==> #[trigger] root_at(next@, l + 1, pts, t),
                forall|i: int|
                    0 <= i < next.len() ==> (#[trigger] next@[i]).len() <= span(l + 1) + 1 && i * span(l + 1) < pts.len(),
            decreases cur.len() + 1 - 2 * j,
        {
            let a = &cur[2 * j];
            let node = if 2 * j + 1 < cur.len() {
                let b = &cur[2 * j + 1];
                assert(a.len() <= span(l) + 1 && b.len() <= span(l) + 1);
                match multiply(a.as_slice(), b.as_slice()) {
                    Ok(c) => c,
                    Err(e) => {
                        assert(false);
                        Vec::new()
                    },
                }
            } else {
                copy_elements(a.as_slice())
            };
            proof {
                let jj = j as int;
                assert(cur@[2 * jj].len() <= span(l) + 1 && (2 * jj) * span(l) < pts.len());
                assert(node.len() <= span(l + 1) + 1);
                assert(jj * span(l + 1) < pts.len()) by (nonlinear_arith)
                    requires
                        (2 * jj) * span(l) < pts.len(),
                        span(l + 1) == 2 * span(l),
                ;
            }
            let ghost old_next = next@;
            next.push(node);
            proof {
                let jj = j as int;
                assert forall|t: int| 0 <= t < pts.len() && (t / span(l)) / 2 < jj + 1 implies #[trigger] root_at(next@, l + 1, pts, t) by {
                    lemma_div_denominator(t, span(l), 2);
                    assert(t / span(l + 1) == (t / span(l)) / 2);
                    if (t / span(l)) / 2 < jj {
                        assert(root_at(old_next, l + 1, pts, t));
                        assert(next@[t / span(l + 1)] == old_next[t / span(l + 1)]);
                    } else {
                        let i = t / span(l);
                        assert(root_at(cur@, l, pts, t));
                        let x = pts[t];
                        assert(peval(fes(cur@[i]@), x) == 0);
                        if 2 * jj + 1 < cur.len() {
                            let pa = psum(fes(cur@[2 * jj]@), x);
                            let pb = psum(fes(cur@[2 * jj + 1]@), x);
                            assert(peval(fes(node@), x) == (pa * pb) % modulus());
                            if i == 2 * jj {
                                lemma_mul_mod_noop_left(pa, pb, modulus());
                                assert(0 * pb == 0);
                            } else {
                                lemma_mul_mod_noop_right(pa, pb, modulus());
                                assert(pa * 0 == 0);
                            }
                        } else {
                            assert(i == 2 * jj);
                        }
                    }
                }
                assert forall|i: int| 0 <= i < next.len() implies (#[trigger] next@[i]).len() <= span(l + 1) + 1 && i * span(l + 1) < pts.len() by {
                    if i < jj {
                        assert(next@[i] == old_next[i]);
                    }
                }
            }
            j = j + 1;
        }
        proof {
            assert forall|t: int| 0 <= t < pts.len() implies #[trigger] root_at(next@, l + 1, pts, t) by {
                assert(root_at(cur@, l, pts, t));
            }
        }
        next
    }
}

} // verus!
