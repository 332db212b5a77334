//! Erasure masks: checked sets of erased coordinates, independent of the code's values.
use crate::domain::{gamma_seq, outer_product, point_value, Domain, Params, ParamsView, Scheme};
use crate::field::modulus;
use crate::polynomial::{evaluate, fes, peval, prod, vanishing};
use crate::protocol::MessagePolys;
use crate::error::{require, Error, Result};
use crate::field::Fe;
use crate::recovery::{
    codeword_shape, coordinates, group_survivors, has_codeword_shape, kept_cells,
    lemma_survivors_bounded, row_survivors, select_values, selected, AcceptedValue,
};
use vstd::prelude::*;

verus! {

/// Row-major cell number of coordinate `(j, i)`.
pub open spec fn cell(v: ParamsView, j: int, i: int) -> int {
    j * v.m + i
}

/// Coordinate `(j, i)` lies in the `ell x m` grid.
pub open spec fn in_grid(v: ParamsView, j: int, i: int) -> bool {
    0 <= j < v.ell && 0 <= i < v.m
}

/// Cell numbers are in range and determine their coordinate.
pub proof fn lemma_cell(v: ParamsView, j: int, i: int)
    requires
        v.valid(),
        in_grid(v, j, i),
    ensures
        0 <= cell(v, j, i) < v.n(),
        cell(v, j, i) / (v.m as int) == j,
        cell(v, j, i) % (v.m as int) == i,
{
    assert(j * v.m + i < v.ell * v.m) by (nonlinear_arith)
        requires
            0 <= j < v.ell,
            0 <= i < v.m,
    {
        assert((j + 1) * v.m <= v.ell * v.m) by (nonlinear_arith)
            requires
                j + 1 <= v.ell,
                v.m >= 0,
        ;
        assert((j + 1) * v.m == j * v.m + v.m) by (nonlinear_arith);
    }
    assert(j * v.m >= 0) by (nonlinear_arith)
        requires
            j >= 0,
    ;
    vstd::arithmetic::div_mod::lemma_fundamental_div_mod_converse(j * v.m + i, v.m as int, j, i);
}

/// Two grid coordinates with the same cell number are equal.
pub proof fn lemma_cell_injective(v: ParamsView, j: int, i: int, j2: int, i2: int)
    requires
        v.valid(),
        in_grid(v, j, i),
        in_grid(v, j2, i2),
        cell(v, j, i) == cell(v, j2, i2),
    ensures
        j == j2 && i == i2,
{
    lemma_cell(v, j, i);
    lemma_cell(v, j2, i2);
}

/// A position of `ps` that is out of the grid or repeats an earlier one.
pub open spec fn bad_position(v: ParamsView, ps: Seq<(usize, usize)>, t: int) -> bool {
    ||| !in_grid(v, ps[t].0 as int, ps[t].1 as int)
    ||| exists|s: int| 0 <= s < t && ps[s] == ps[t]
}

/// The reason `ErasureMask::new` gives for the first bad position `t`.
pub open spec fn bad_position_reason(v: ParamsView, ps: Seq<(usize, usize)>, t: int) -> Seq<char> {
    if !in_grid(v, ps[t].0 as int, ps[t].1 as int) {
        "erasure coordinate"@
    } else {
        "duplicate erasure coordinate"@
    }
}

/// `(j, i)` is one of the positions of `ps`.
pub open spec fn listed(ps: Seq<(usize, usize)>, j: int, i: int) -> bool {
    exists|s: int| 0 <= s < ps.len() && ps[s].0 == j && ps[s].1 == i
}

/// Number of bytes equal to one.
pub open spec fn count_ones(s: Seq<u8>) -> nat
    decreases s.len(),
{
    if s.len() == 0 {
        0
    } else {
        count_ones(s.drop_last()) + if s.last() == 1 {
            1nat
        } else {
            0nat
        }
    }
}

/// Bytes that mark cells with one and zero hold as many ones as there are marked cells.
pub proof fn lemma_count_ones(bytes: Seq<u8>, cells: Seq<bool>)
    requires
        bytes.len() == cells.len(),
        forall|t: int| 0 <= t < bytes.len() ==> #[trigger] bytes[t] == if cells[t] { 1u8 } else { 0u8 },
    ensures
        count_ones(bytes) == count_true(cells),
    decreases bytes.len(),
{
    if bytes.len() > 0 {
        lemma_count_ones(bytes.drop_last(), cells.drop_last());
        assert(bytes.last() == bytes[bytes.len() - 1]);
    }
}

/// Number of `true` cells.
pub open spec fn count_true(s: Seq<bool>) -> nat
    decreases s.len(),
{
    if s.len() == 0 {
        0
    } else {
        count_true(s.drop_last()) + if s.last() {
            1nat
        } else {
            0nat
        }
    }
}

/// The indices of the `true` entries.
pub open spec fn true_cells(s: Seq<bool>) -> Set<int> {
    Set::new(|c: int| 0 <= c < s.len() && s[c])
}

/// `count_true` is the size of the set of `true` entries.
pub proof fn lemma_count_true_set(s: Seq<bool>)
    ensures
        true_cells(s).finite(),
        true_cells(s).len() == count_true(s),
    decreases s.len(),
{
    if s.len() == 0 {
        assert(true_cells(s) =~= Set::empty());
    } else {
        let t = s.drop_last();
        let k = s.len() - 1;
        lemma_count_true_set(t);
        assert(!true_cells(t).contains(k));
        if s.last() {
            assert(true_cells(s) =~= true_cells(t).insert(k));
        } else {
            assert(true_cells(s) =~= true_cells(t));
        }
    }
}

/// Every cell number below `n` is the cell of a grid coordinate.
proof fn lemma_cell_onto(v: ParamsView, c: int)
    requires
        v.valid(),
        0 <= c < v.n(),
    ensures
        in_grid(v, c / (v.m as int), c % (v.m as int)),
        cell(v, c / (v.m as int), c % (v.m as int)) == c,
{
    let m = v.m as int;
    assert(m > 0) by (nonlinear_arith)
        requires
            0 <= c < v.ell * m,
            v.ell >= 0,
            m >= 0,
    ;
    vstd::arithmetic::div_mod::lemma_fundamental_div_mod(c, m);
    vstd::arithmetic::div_mod::lemma_div_pos_is_pos(c, m);
    vstd::arithmetic::div_mod::lemma_mod_bound(c, m);
    assert(c / m < v.ell) by (nonlinear_arith)
        requires
            c == m * (c / m) + c % m,
            c % m >= 0,
            c < v.ell * m,
            m > 0,
    ;
    assert(cell(v, c / m, c % m) == (c / m) * m + c % m);
    assert((c / m) * m == m * (c / m)) by (nonlinear_arith);
}

/// Flags that mark exactly the coordinates of distinct grid positions count those
/// positions: erasing `k` distinct symbols erases `k` symbols.
pub proof fn lemma_erased_count(v: ParamsView, cells: Seq<bool>, ps: Seq<(usize, usize)>)
    requires
        v.valid(),
        cells.len() == v.n(),
        forall|t: int| 0 <= t < ps.len() ==> !bad_position(v, ps, t),
        forall|j: int, i: int| in_grid(v, j, i) ==> (cells[cell(v, j, i)] <==> listed(ps, j, i)),
    ensures
        count_true(cells) == ps.len(),
{
    let cs = ps.map(|t: int, p: (usize, usize)| cell(v, p.0 as int, p.1 as int));
    assert forall|s: int, t: int| 0 <= s < t < cs.len() implies cs[s] != cs[t] by {
        assert(!bad_position(v, ps, s));
        assert(!bad_position(v, ps, t));
        if cs[s] == cs[t] {
            lemma_cell_injective(v, ps[s].0 as int, ps[s].1 as int, ps[t].0 as int, ps[t].1 as int);
            assert(ps[s] == ps[t]);
        }
    }
    assert(cs.no_duplicates());
    cs.unique_seq_to_set();
    assert forall|c: int| #[trigger] true_cells(cells).contains(c) <==> cs.to_set().contains(c) by {
        if true_cells(cells).contains(c) {
            lemma_cell_onto(v, c);
            let j = c / (v.m as int);
            let i = c % (v.m as int);
            assert(listed(ps, j, i));
            let s = choose|s: int| 0 <= s < ps.len() && ps[s].0 == j && ps[s].1 == i;
            assert(cs[s] == c);
        }
        if cs.to_set().contains(c) {
            assert(cs.contains(c));
            let s = choose|s: int| 0 <= s < cs.len() && cs[s] == c;
            assert(!bad_position(v, ps, s));
            let j = ps[s].0 as int;
            let i = ps[s].1 as int;
            lemma_cell(v, j, i);
            assert(listed(ps, j, i));
        }
    }
    assert(true_cells(cells) =~= cs.to_set());
    lemma_count_true_set(cells);
}

/// Restoring an erased symbol lowers the number of erased symbols by exactly one:
/// clearing a set flag of the row-major flags removes one from their count.
pub proof fn lemma_count_after_restore(cells: Seq<bool>, k: int)
    requires
        0 <= k < cells.len(),
        cells[k],
    ensures
        count_true(cells.update(k, false)) + 1 == count_true(cells),
    decreases cells.len(),
{
    let u = cells.update(k, false);
    if k == cells.len() - 1 {
        assert(u.drop_last() == cells.drop_last());
    } else {
        lemma_count_after_restore(cells.drop_last(), k);
        assert(u.drop_last() == cells.drop_last().update(k, false));
        assert(u.last() == cells.last());
    }
}

/// A checked set of erased coordinates.
#[derive(Clone)]
pub struct ErasureMask {
    params: Params,
    erased: Vec<bool>,
}

/// Survivors of the groups `0..upto`, each counted over its `m` rows.
pub open spec fn survivors_total(erased: spec_fn(int, int) -> bool, upto: int, m: int) -> nat
    decreases upto,
{
    if upto <= 0 {
        0
    } else {
        survivors_total(erased, upto - 1, m) + group_survivors(erased, upto - 1, m)
    }
}

/// Counting the first `j m + i` cells row by row: each is erased or survives.
proof fn lemma_prefix_survivors(mask: ErasureMask, j: int, i: int)
    requires
        mask.wf(),
        0 <= j <= mask.params_view().ell,
        0 <= i <= mask.params_view().m,
        j == mask.params_view().ell ==> i == 0,
    ensures
        j * mask.params_view().m + i <= mask.params_view().n(),
        count_true(mask.cells().take(j * mask.params_view().m + i)) + survivors_total(
            |x: int, y: int| mask.is_erased(x, y),
            j,
            mask.params_view().m as int,
        ) + group_survivors(|x: int, y: int| mask.is_erased(x, y), j, i) == j * mask.params_view().m + i,
    decreases j, i,
{
    let v = mask.params_view();
    let m = v.m as int;
    let erased = |x: int, y: int| mask.is_erased(x, y);
    assert(erased =~= (|x: int, y: int| mask.is_erased(x, y)));
    let cells = mask.cells();
    if i > 0 {
        lemma_prefix_survivors(mask, j, i - 1);
        lemma_cell(v, j, i - 1);
        let c = j * m + i;
        assert(cell(v, j, i - 1) == c - 1);
        assert(cells.take(c).drop_last() =~= cells.take(c - 1));
        assert(cells.take(c).last() == cells[c - 1]);
        assert(erased(j, i - 1) == cells[c - 1]);
        assert(count_true(cells.take(c)) == count_true(cells.take(c - 1)) + if cells[c - 1] {
            1nat
        } else {
            0nat
        });
        assert(group_survivors(erased, j, i) == group_survivors(erased, j, i - 1) + if erased(j, i - 1) {
            0nat
        } else {
            1nat
        });
        assert(count_true(cells.take(j * m + i)) + survivors_total(erased, j, m) + group_survivors(erased, j, i) == j * m + i);
    } else if j > 0 {
        lemma_prefix_survivors(mask, j - 1, m);
        assert((j - 1) * m + m == j * m) by (nonlinear_arith);
        assert(survivors_total(erased, j, m) == survivors_total(erased, j - 1, m) + group_survivors(erased, j - 1, m));
        assert(group_survivors(erased, j, 0) == 0);
        assert(count_true(cells.take(j * m + i)) + survivors_total(erased, j, m) + group_survivors(erased, j, i) == j * m + i);
    } else {
        assert(j * m == 0) by (nonlinear_arith)
            requires
                j == 0,
        ;
        assert(cells.take(0).len() == 0);
        assert(count_true(cells.take(0)) == 0);
        assert(survivors_total(erased, 0, m) == 0);
        assert(group_survivors(erased, 0, 0) == 0);
        assert(count_true(cells.take(j * m + i)) + survivors_total(erased, j, m) + group_survivors(erased, j, i) == j * m + i);
    }
    if j < v.ell {
        assert(j * m + i <= v.n()) by (nonlinear_arith)
            requires
                0 <= j < v.ell,
                0 <= i <= m,
                v.n() == v.ell * m,
        {
            assert((j + 1) * m <= v.ell * m) by (nonlinear_arith)
                requires
                    j + 1 <= v.ell,
                    m >= 0,
            ;
        }
    }
}

/// Every symbol of the grid is either erased or survives in its group: the group
/// survivor counts add up to `n` minus the number of erased symbols.
pub proof fn lemma_group_survivors_total(mask: ErasureMask)
    requires
        mask.wf(),
    ensures
        survivors_total(
            |x: int, y: int| mask.is_erased(x, y),
            mask.params_view().ell as int,
            mask.params_view().m as int,
        ) + count_true(mask.cells()) == mask.params_view().n(),
{
    let v = mask.params_view();
    lemma_prefix_survivors(mask, v.ell as int, 0);
    let total: int = (v.ell * v.m) as int;
    assert(mask.cells().take(total) =~= mask.cells());
}

impl ErasureMask {
    /// The code parameters the mask is laid over.
    pub closed spec fn params_view(self) -> ParamsView {
        self.params@
    }

    /// Erasure flags in row-major order: cell `j m + i` is coordinate `(j, i)`.
    pub closed spec fn cells(self) -> Seq<bool> {
        self.erased@
    }

    /// The parameters are valid and the flags cover the whole grid.
    pub open spec fn wf(self) -> bool {
        &&& self.params_view().valid()
        &&& self.cells().len() == self.params_view().n()
    }

    /// Whether coordinate `(j, i)` is erased.
    pub open spec fn is_erased(self, j: int, i: int) -> bool {
        self.cells()[cell(self.params_view(), j, i)]
    }

    /// Reject duplicate and out-of-domain positions before allocating a fixture.
    pub fn new(params: Params, positions: &[(usize, usize)]) -> (res: Result<Self>)
        ensures
            res is Ok <==> forall|t: int|
                0 <= t < positions@.len() ==> !bad_position(params@, positions@, t),
            res matches Ok(mask) ==> {
                &&& mask.wf()
                &&& mask.params_view() == params@
                &&& forall|j: int, i: int|
                    in_grid(params@, j, i) ==> (mask.is_erased(j, i) <==> listed(
                        positions@,
                        j,
                        i,
                    ))
                &&& count_true(mask.cells()) == positions@.len()
            },
            res matches Err(e) ==> exists|t: int|
                {
                    &&& 0 <= t < positions@.len()
                    &&& bad_position(params@, positions@, t)
                    &&& forall|s: int| 0 <= s < t ==> !bad_position(params@, positions@, s)
                    &&& e.0@ == bad_position_reason(params@, positions@, t)
                },
    {
        proof {
            use_type_invariant(&params);
        }
        let ghost v = params@;
        let ghost ps = positions@;
        let ell = params.ell();
        let m = params.m();
        let mut erased = vec![false; params.n()];
        assert forall|j: int, i: int| in_grid(v, j, i) implies !erased@[cell(v, j, i)] by {
            lemma_cell(v, j, i);
        }
        let mut t: usize = 0;
        while t < positions.len()
            invariant
                v == params@,
                v.valid(),
                ps == positions@,
                ell == v.ell,
                m == v.m,
                t <= ps.len(),
                erased.len() == v.n(),
                forall|s: int| 0 <= s < t ==> !bad_position(v, ps, s),
                forall|j: int, i: int|
                    in_grid(v, j, i) ==> (erased@[cell(v, j, i)] <==> exists|s: int|
                        0 <= s < t && ps[s].0 == j && ps[s].1 == i),
            decreases ps.len() - t,
        {
            let (j, i) = positions[t];
            assert(ps[t as int].0 == j && ps[t as int].1 == i);
            if !(j < ell && i < m) {
                assert(bad_position(v, ps, t as int));
                return Err(Error("erasure coordinate".to_owned()));
            }
            proof {
                lemma_cell(v, j as int, i as int);
            }
            let c = j * m + i;
            assert(in_grid(v, j as int, i as int));
            assert(c == cell(v, j as int, i as int));
            if erased[c] {
                assert(bad_position(v, ps, t as int)) by {
                    let s = choose|s: int| 0 <= s < t && ps[s].0 == j && ps[s].1 == i;
                    assert(ps[s] == ps[t as int]);
                }
                return Err(Error("duplicate erasure coordinate".to_owned()));
            }
            assert(!bad_position(v, ps, t as int)) by {
                if exists|s: int| 0 <= s < t && ps[s] == ps[t as int] {
                    let s = choose|s: int| 0 <= s < t && ps[s] == ps[t as int];
                    assert(ps[s].0 == j && ps[s].1 == i);
                    assert(erased@[cell(v, j as int, i as int)]);
                }
            }
            erased.set(c, true);
            assert forall|j2: int, i2: int| in_grid(v, j2, i2) implies (erased@[cell(v, j2, i2)]
                <==> exists|s: int| 0 <= s < t + 1 && ps[s].0 == j2 && ps[s].1 == i2) by {
                lemma_cell(v, j2, i2);
                if j2 == j && i2 == i {
                    assert(ps[t as int].0 == j2 && ps[t as int].1 == i2);
                } else {
                    if cell(v, j2, i2) == c {
                        lemma_cell_injective(v, j2, i2, j as int, i as int);
                    }
                    if exists|s: int| 0 <= s < t + 1 && ps[s].0 == j2 && ps[s].1 == i2 {
                        let s = choose|s: int| 0 <= s < t + 1 && ps[s].0 == j2 && ps[s].1 == i2;
                        assert(s != t);
                    }
                }
            }
            t = t + 1;
        }
        let mask = ErasureMask { params, erased };
        assert forall|j: int, i: int| in_grid(params@, j, i) implies (mask.is_erased(j, i)
            <==> listed(positions@, j, i)) by {
            if listed(positions@, j, i) {
                let s = choose|s: int| 0 <= s < ps.len() && ps[s].0 == j && ps[s].1 == i;
                assert(0 <= s < t && ps[s].0 == j && ps[s].1 == i);
            }
        }
        proof {
            lemma_erased_count(v, mask.cells(), ps);
        }
        Ok(mask)
    }

    /// Query membership with domain bounds checking.
    pub fn contains(&self, group: usize, index: usize) -> (res: Result<bool>)
        requires
            self.wf(),
        ensures
            res is Ok <==> in_grid(self.params_view(), group as int, index as int),
            res matches Ok(e) ==> e == self.is_erased(group as int, index as int),
            res matches Err(e) ==> e.0@ == "erasure coordinate"@,
    {
        require(group < self.params.ell() && index < self.params.m(), "erasure coordinate")?;
        proof {
            lemma_cell(self.params@, group as int, index as int);
        }
        Ok(self.erased[group * self.params.m() + index])
    }

    /// Restore one erased symbol to form a distance-boundary control.
    pub fn restore(&mut self, group: usize, index: usize) -> (res: Result<()>)
        requires
            old(self).wf(),
        ensures
            final(self).wf(),
            res is Ok <==> in_grid(old(self).params_view(), group as int, index as int)
                && old(self).is_erased(group as int, index as int),
            final(self).params_view() == old(self).params_view(),
            res is Err ==> final(self).cells() == old(self).cells(),
            res is Ok ==> final(self).cells() == old(self).cells().update(
                cell(old(self).params_view(), group as int, index as int),
                false,
            ),
            res matches Err(e) ==> e.0@ == if in_grid(
                old(self).params_view(),
                group as int,
                index as int,
            ) {
                "symbol is not erased"@
            } else {
                "erasure coordinate"@
            },
    {
        let present = self.contains(group, index)?;
        require(present, "symbol is not erased")?;
        proof {
            lemma_cell(self.params@, group as int, index as int);
        }
        let c = group * self.params.m() + index;
        self.erased.set(c, false);
        Ok(())
    }

    /// Number of erased symbols.
    pub fn count(&self) -> (c: usize)
        ensures
            c == count_true(self.cells()),
    {
        let mut c: usize = 0;
        let mut t: usize = 0;
        while t < self.erased.len()
            invariant
                t <= self.erased@.len(),
                c == count_true(self.erased@.take(t as int)),
                c <= t,
            decreases self.erased@.len() - t,
        {
            assert(self.erased@.take(t + 1).drop_last() == self.erased@.take(t as int));
            if self.erased[t] {
                c = c + 1;
            }
            t = t + 1;
        }
        assert(self.erased@.take(t as int) == self.erased@);
        c
    }

    /// Canonical row-major mask bytes for fixture hashes: `1` for erased, `0` for kept.
    pub fn bytes(&self) -> (out: Vec<u8>)
        ensures
            out@.len() == self.cells().len(),
            forall|t: int|
                0 <= t < out@.len() ==> #[trigger] out@[t] == if self.cells()[t] {
                    1u8
                } else {
                    0u8
                },
            count_ones(out@) == count_true(self.cells()),
    {
        let mut out: Vec<u8> = Vec::with_capacity(self.erased.len());
        let mut t: usize = 0;
        while t < self.erased.len()
            invariant
                t <= self.erased@.len(),
                out@.len() == t,
                forall|s: int|
                    0 <= s < t ==> #[trigger] out@[s] == if self.erased@[s] {
                        1u8
                    } else {
                        0u8
                    },
            decreases self.erased@.len() - t,
        {
            out.push(if self.erased[t] {
                1u8
            } else {
                0u8
            });
            t = t + 1;
        }
        proof {
            lemma_count_ones(out@, self.cells());
        }
        out
    }

    /// The survivor counts per local group and per product row.
    pub fn survivor_counts(&self) -> (res: (Vec<usize>, Vec<usize>))
        requires
            self.wf(),
        ensures
            res.0.len() == self.params_view().ell,
            res.1.len() == self.params_view().m,
            forall|j: int|
                0 <= j < self.params_view().ell ==> #[trigger] res.0@[j] == group_survivors(
                    |x: int, y: int| self.is_erased(x, y),
                    j,
                    self.params_view().m as int,
                ),
            forall|i: int|
                0 <= i < self.params_view().m ==> #[trigger] res.1@[i] == row_survivors(
                    |x: int, y: int| self.is_erased(x, y),
                    i,
                    self.params_view().ell as int,
                ),
    {
        let ghost v = self.params@;
        let ghost er = |x: int, y: int| self.is_erased(x, y);
        let ell = self.params.ell();
        let m = self.params.m();
        let mut groups: Vec<usize> = vec![0; ell];
        let mut rows: Vec<usize> = vec![0; m];
        let mut j: usize = 0;
        while j < ell
            invariant
                v == self.params_view(),
                v.valid(),
                self.erased@.len() == v.n(),
                er == (|x: int, y: int| self.is_erased(x, y)),
                ell == v.ell,
                m == v.m,
                j <= ell,
                groups.len() == ell,
                rows.len() == m,
                forall|x: int|
                    0 <= x < j ==> #[trigger] groups@[x] == group_survivors(er, x, m as int),
                forall|x: int| j <= x < ell ==> #[trigger] groups@[x] == 0,
                forall|y: int| 0 <= y < m ==> #[trigger] rows@[y] == row_survivors(er, y, j as int),
            decreases ell - j,
        {
            let mut i: usize = 0;
            while i < m
                invariant
                    v == self.params_view(),
                    v.valid(),
                    self.erased@.len() == v.n(),
                    er == (|x: int, y: int| self.is_erased(x, y)),
                    ell == v.ell,
                    m == v.m,
                    j < ell,
                    i <= m,
                    groups.len() == ell,
                    rows.len() == m,
                    forall|x: int|
                        0 <= x < j ==> #[trigger] groups@[x] == group_survivors(er, x, m as int),
                    forall|x: int| j < x < ell ==> #[trigger] groups@[x] == 0,
                    groups@[j as int] == group_survivors(er, j as int, i as int),
                    forall|y: int|
                        0 <= y < i ==> #[trigger] rows@[y] == row_survivors(er, y, j + 1),
                    forall|y: int|
                        i <= y < m ==> #[trigger] rows@[y] == row_survivors(er, y, j as int),
                decreases m - i,
            {
                proof {
                    lemma_cell(v, j as int, i as int);
                    lemma_survivors_bounded(er, j as int, i as int);
                    lemma_survivors_bounded(er, i as int, j as int);
                }
                let e = self.erased[j * m + i];
                assert(e == er(j as int, i as int));
                assert(group_survivors(er, j as int, i + 1) == group_survivors(
                    er,
                    j as int,
                    i as int,
                ) + if e {
                    0nat
                } else {
                    1nat
                });
                assert(row_survivors(er, i as int, j + 1) == row_survivors(er, i as int, j as int)
                    + if e {
                    0nat
                } else {
                    1nat
                });
                if !e {
                    groups.set(j, groups[j] + 1);
                    rows.set(i, rows[i] + 1);
                }
                i = i + 1;
            }
            j = j + 1;
        }
        (groups, rows)
    }

    /// Select only received values. No producer state is passed to the decoder.
    pub fn retain(&self, values: &[Vec<Fe>]) -> (res: Result<Vec<AcceptedValue>>)
        requires
            self.wf(),
        ensures
            res is Ok <==> codeword_shape(self.params_view(), values@),
            res matches Err(e) ==> e.0@ == "codeword shape"@,
            res matches Ok(out) ==> {
                &&& coordinates(out@) == kept_cells(
                    |j: int, i: int| !self.is_erased(j, i),
                    self.params_view().m as int,
                    self.params_view().n() as int,
                )
                &&& forall|t: int| 0 <= t < out.len() ==> #[trigger] selected(values@, out@[t])
            },
    {
        let ghost v = self.params@;
        require(has_codeword_shape(self.params, values), "codeword shape")?;
        let ghost keep = |j: int, i: int| !self.is_erased(j, i);
        assert forall|j: int, i: int| in_grid(v, j, i) implies (self.erased@[cell(v, j, i)] == false)
            == keep(j, i) by {}
        Ok(select_values(self.params, values, Ghost(keep), &self.erased, false))
    }
}

/// The positions of the rectangle `groups x indices`, group-major.
pub open spec fn rectangle_positions(groups: Seq<usize>, indices: Seq<usize>) -> Seq<(usize, usize)> {
    Seq::new(
        groups.len() * indices.len(),
        |c: int| (groups[c / (indices.len() as int)], indices[c % (indices.len() as int)]),
    )
}

/// Construct a minimum-distance rectangle with exactly `ell - a + 1` groups and
/// `m - r + 1` indices.
pub fn rectangle(domain: &Domain, groups: &[usize], indices: &[usize]) -> (res: Result<ErasureMask>)
    ensures
        domain.parameters()@.b != 0 ==> (res matches Err(e) && e.0@ == "rectangle requires b=0"@),
        domain.parameters()@.b == 0 && !(groups.len() == domain.parameters()@.ell
            - domain.parameters()@.a + 1 && indices.len() == domain.parameters()@.m
            - domain.parameters()@.r + 1) ==> (res matches Err(e) && e.0@ == "rectangle dimensions"@),
        domain.parameters()@.b == 0 && groups.len() == domain.parameters()@.ell
            - domain.parameters()@.a + 1 && indices.len() == domain.parameters()@.m
            - domain.parameters()@.r + 1 ==> {
            let ps = rectangle_positions(groups@, indices@);
            let v = domain.parameters()@;
            &&& (res is Ok <==> forall|t: int| 0 <= t < ps.len() ==> !bad_position(v, ps, t))
            &&& res matches Ok(mask) ==> mask.wf() && mask.params_view() == v && forall|j: int, i: int|
                in_grid(v, j, i) ==> (mask.is_erased(j, i) <==> listed(ps, j, i))
            &&& res matches Ok(mask) ==> count_true(mask.cells()) == (v.ell - v.a + 1) * (v.m - v.r + 1)
            &&& res matches Err(e) ==> exists|t: int|
                {
                    &&& 0 <= t < ps.len()
                    &&& bad_position(v, ps, t)
                    &&& forall|s: int| 0 <= s < t ==> !bad_position(v, ps, s)
                    &&& e.0@ == bad_position_reason(v, ps, t)
                }
        },
{
    let p = domain.params();
    let ghost v = p@;
    require(p.b() == 0, "rectangle requires b=0")?;
    proof {
        crate::domain::lemma_valid_bounds(v);
    }
    require(
        groups.len() == p.ell() - p.a() + 1 && indices.len() == p.m() - p.r() + 1,
        "rectangle dimensions",
    )?;
    let ni = indices.len();
    let mut positions: Vec<(usize, usize)> = Vec::new();
    let mut g: usize = 0;
    while g < groups.len()
        invariant
            ni == indices.len(),
            ni >= 1,
            g <= groups.len(),
            positions@ == rectangle_positions(groups@, indices@).take(g * ni),
            groups.len() * ni == rectangle_positions(groups@, indices@).len(),
        decreases groups.len() - g,
    {
        let mut i: usize = 0;
        while i < ni
            invariant
                ni == indices.len(),
                ni >= 1,
                g < groups.len(),
                i <= ni,
                positions@ == rectangle_positions(groups@, indices@).take(g * ni + i),
                groups.len() * ni == rectangle_positions(groups@, indices@).len(),
            decreases ni - i,
        {
            proof {
                assert(g * ni + i < groups.len() * ni) by (nonlinear_arith)
                    requires
                        g < groups.len(),
                        i < ni,
                {
                    assert(g * ni + ni <= groups.len() * ni) by (nonlinear_arith)
                        requires
                            g + 1 <= groups.len(),
                            ni >= 0,
                    ;
                }
                vstd::arithmetic::div_mod::lemma_fundamental_div_mod_converse(
                    g * ni + i,
                    ni as int,
                    g as int,
                    i as int,
                );
            }
            let ghost before = positions@;
            positions.push((groups[g], indices[i]));
            assert(positions@ == rectangle_positions(groups@, indices@).take(g * ni + i + 1));
            i = i + 1;
        }
        assert(g * ni + ni == (g + 1) * ni) by (nonlinear_arith);
        g = g + 1;
    }
    assert(positions@ == rectangle_positions(groups@, indices@));
    let res = ErasureMask::new(p, positions.as_slice());
    assert(groups.len() * indices.len() == (v.ell - v.a + 1) * (v.m - v.r + 1));
    res
}


/// The positions below `n` that `s` does not hold, in increasing order.
pub open spec fn outside(n: int, s: Seq<usize>) -> Seq<int>
    decreases n,
{
    if n <= 0 {
        Seq::empty()
    } else if s.contains((n - 1) as usize) {
        outside(n - 1, s)
    } else {
        outside(n - 1, s).push(n - 1)
    }
}

/// The outer labels of the groups outside the rectangle.
pub open spec fn outer_roots(v: ParamsView, groups: Seq<usize>) -> Seq<int> {
    outside(v.ell as int, groups).map_values(|j: int| gamma_seq(v)[j])
}

/// The product-code points of the positions outside the rectangle.
pub open spec fn inner_roots(v: ParamsView, indices: Seq<usize>) -> Seq<int> {
    outside(v.m as int, indices).map_values(|i: int| point_value(v, Scheme::Product, 0, i))
}

/// Two-message difference that vanishes at every surviving product-code coordinate.
pub struct ProductWitness {
    /// Nonzero source-message difference, ordered exactly as the protocol API.
    pub message: Vec<Fe>,
    /// Its product-code encoding. Support is exactly the erased rectangle.
    pub values: Vec<Vec<Fe>>,
}

/// The outer labels of the groups outside `s`.
fn gammas_outside(domain: &Domain, s: &[usize]) -> (r: Vec<Fe>)
    ensures
        fes(r@) == outer_roots(domain.parameters()@, s@),
{
    let ghost v = domain.parameters()@;
    let gammas = domain.gammas();
    let n = gammas.len();
    let mut out: Vec<Fe> = Vec::new();
    let mut k: usize = 0;
    while k < n
        invariant
            v == domain.parameters()@,
            n == v.ell,
            gammas.len() == n,
            fes(gammas@) == gamma_seq(v),
            k <= n,
            fes(out@) =~= outside(k as int, s@).map_values(|j: int| gamma_seq(v)[j]),
        decreases n - k,
    {
        let ghost before = fes(out@);
        if !crate::protocol::holds_index(s, k) {
            out.push(gammas[k]);
            assert(outside(k + 1, s@) == outside(k as int, s@).push(k as int));
            assert(fes(out@) =~= before.push(gamma_seq(v)[k as int]));
        } else {
            assert(outside(k + 1, s@) == outside(k as int, s@));
        }
        k = k + 1;
    }
    out
}

/// The product-code points of the positions outside `s`.
fn points_outside(domain: &Domain, s: &[usize]) -> (r: Vec<Fe>)
    requires
        domain.parameters()@.b == 0,
    ensures
        fes(r@) == inner_roots(domain.parameters()@, s@),
{
    let p = domain.params();
    let ghost v = p@;
    let n = p.m();
    let mut out: Vec<Fe> = Vec::new();
    let mut k: usize = 0;
    while k < n
        invariant
            v == domain.parameters()@,
            v.b == 0,
            v.valid(),
            n == v.m,
            k <= n,
            fes(out@) =~= outside(k as int, s@).map_values(|i: int| point_value(v, Scheme::Product, 0, i)),
        decreases n - k,
    {
        let ghost before = fes(out@);
        if !crate::protocol::holds_index(s, k) {
            let x = match domain.point(Scheme::Product, 0, k) {
                Ok(x) => x,
                Err(_) => {
                    assert(false);
                    Fe::zero()
                },
            };
            out.push(x);
            assert(outside(k + 1, s@) == outside(k as int, s@).push(k as int));
            assert(fes(out@) =~= before.push(point_value(v, Scheme::Product, 0, k as int)));
        } else {
            assert(outside(k + 1, s@) == outside(k as int, s@));
        }
        k = k + 1;
    }
    out
}

/// `w` is the product witness for the rectangle `groups x indices`: a nonzero message
/// whose product-code symbols are `q(gamma_j) p(x_i)` for the vanishing polynomials `q` of
/// the outer labels outside the rectangle and `p` of the inner points outside it, so
/// that exactly the rectangle's symbols are nonzero.
pub open spec fn is_product_witness(
    w: ProductWitness,
    v: ParamsView,
    table: Seq<Seq<int>>,
    groups: Seq<usize>,
    indices: Seq<usize>,
) -> bool {
    let outer = outer_roots(v, groups);
    let inner = inner_roots(v, indices);
    let ps = rectangle_positions(groups, indices);
    &&& w.message.len() == v.k()
    &&& exists|t: int| 0 <= t < w.message.len() && #[trigger] w.message@[t]@ != 0
    &&& w.values.len() == v.ell
    &&& forall|j: int| 0 <= j < v.ell ==> (#[trigger] w.values@[j]).len() == v.m
    &&& forall|j: int, i: int|
        0 <= j < v.ell && 0 <= i < v.m ==> {
            &&& #[trigger] w.values@[j]@[i]@ == (prod(outer, gamma_seq(v)[j]) % modulus() * (prod(
                inner,
                point_value(v, Scheme::Product, j, i),
            ) % modulus())) % modulus()
            &&& (w.values@[j]@[i]@ == 0) != listed(ps, j, i)
            &&& w.values@[j]@[i]@ == peval(
                crate::protocol::message_local(v, table, fes(w.message@), j),
                point_value(v, Scheme::Product, j, i),
            )
        }
}

/// Construct `q(Y) p(X)`, vanishing outside the rectangle on each axis: `q` has degree
/// `a - 1` and `p` degree `r - 1`, a nonzero valid product codeword.
#[verifier::spinoff_prover]
pub fn product_witness(domain: &Domain, groups: &[usize], indices: &[usize]) -> (res: Result<ProductWitness>)
    ensures
        res matches Ok(w) ==> is_product_witness(w, domain.parameters()@, domain.weight_table(), groups@, indices@),
        res matches Err(e) ==> e.0@ == "rectangle requires b=0"@ || e.0@ == "rectangle dimensions"@
            || e.0@ == "erasure coordinate"@ || e.0@ == "duplicate erasure coordinate"@ || e.0@ == "zero witness"@
            || e.0@ == "witness factor/encoding mismatch"@ || e.0@ == "witness support mismatch"@
            || e.0@ == "duplicate coordinates"@,
{
    let mask = rectangle(domain, groups, indices)?;
    let p = domain.params();
    let ghost v = p@;
    proof {
        crate::domain::lemma_valid_bounds(v);
    }
    let outer = gammas_outside(domain, groups);
    let inner = points_outside(domain, indices);
    let q = vanishing(outer.as_slice())?;
    let poly = vanishing(inner.as_slice())?;
    let gammas = domain.gammas();
    let mut message: Vec<Fe> = Vec::new();
    let mut j: usize = 0;
    while j < p.a()
        invariant
            v == p@,
            v.valid(),
            gammas.len() == v.ell,
            j <= v.a,
            message.len() == j * poly.len(),
        decreases v.a - j,
    {
        let w = evaluate(q.as_slice(), gammas[j]);
        let mut k: usize = 0;
        while k < poly.len()
            invariant
                k <= poly.len(),
                j < v.a,
                message.len() == j * poly.len() + k,
            decreases poly.len() - k,
        {
            message.push(w.mul(poly[k]));
            k = k + 1;
        }
        assert((j + 1) * poly.len() == j * poly.len() + poly.len()) by (nonlinear_arith);
        j = j + 1;
    }
    let mut any = false;
    let mut t: usize = 0;
    while t < message.len()
        invariant
            t <= message.len(),
            any == exists|u: int| 0 <= u < t && #[trigger] message@[u]@ != 0,
        decreases message.len() - t,
    {
        if !message[t].is_zero() {
            any = true;
        }
        t = t + 1;
    }
    require(message.len() == p.k() && any, "zero witness")?;
    let ghost mv = fes(message@);
    let ghost table = domain.weight_table();
    let polys = MessagePolys::new(domain, message.as_slice())?;
    let locals = polys.locals(domain)?;
    proof {
        assert forall|j: int| 0 <= j < v.ell implies #[trigger] fes(locals@[j]@) == crate::protocol::message_local(
            v,
            table,
            mv,
            j,
        ) by {
            if j >= v.a {
                assert(fes(locals@[v.a + (j - v.a)]@) == crate::protocol::parity_local(
                    v,
                    table,
                    polys.source_view(),
                    polys.residual_view(),
                    v.a + (j - v.a),
                ));
            }
        }
        assert forall|j: int| 0 <= j < v.ell implies (#[trigger] crate::protocol::message_local(v, table, mv, j)).len()
            == v.r by {
            if j < v.a {
                assert(j * v.r + v.r <= v.a * v.r) by (nonlinear_arith)
                    requires
                        0 <= j < v.a,
                ;
            }
        }
    }
    let ghost ov = outer_roots(v, groups@);
    let ghost iv = inner_roots(v, indices@);
    let mut values: Vec<Vec<Fe>> = Vec::new();
    let mut j: usize = 0;
    while j < p.ell()
        invariant
            v == p@,
            p == domain.parameters(),
            v.valid(),
            v.b == 0,
            mask.wf(),
            mask.params_view() == v,
            forall|jj: int, ii: int|
                in_grid(v, jj, ii) ==> (mask.is_erased(jj, ii) <==> listed(
                    rectangle_positions(groups@, indices@),
                    jj,
                    ii,
                )),
            gammas.len() == v.ell,
            fes(gammas@) == gamma_seq(v),
            fes(outer@) == ov,
            fes(inner@) == iv,
            locals.len() == v.ell,
            forall|t: int| 0 <= t < v.ell ==> #[trigger] fes(locals@[t]@) == crate::protocol::message_local(v, table, mv, t),
            forall|t: int| 0 <= t < v.ell ==> (#[trigger] crate::protocol::message_local(v, table, mv, t)).len() == v.r,
            j <= v.ell,
            values.len() == j,
            forall|t: int| 0 <= t < j ==> (#[trigger] values@[t]).len() == v.m,
            forall|t: int, i: int|
                0 <= t < j && 0 <= i < v.m ==> {
                    &&& #[trigger] values@[t]@[i]@ == (prod(ov, gamma_seq(v)[t]) % modulus() * (prod(
                        iv,
                        point_value(v, Scheme::Product, t, i),
                    ) % modulus())) % modulus()
                    &&& (values@[t]@[i]@ == 0) != listed(rectangle_positions(groups@, indices@), t, i)
                    &&& values@[t]@[i]@ == peval(
                        crate::protocol::message_local(v, table, mv, t),
                        point_value(v, Scheme::Product, t, i),
                    )
                },
        decreases v.ell - j,
    {
        assert(fes(locals@[j as int]@).len() == locals@[j as int]@.len());
        let row = domain.evaluate(Scheme::Product, j, locals[j].as_slice())?;
        let left = outer_product(outer.as_slice(), outer.len(), gammas[j]);
        assert(fes(outer@).take(outer.len() as int) == ov);
        let mut i: usize = 0;
        while i < p.m()
            invariant
                v == p@,
                p == domain.parameters(),
                v.b == 0,
                j < v.ell,
                row.len() == v.m,
                mask.wf(),
                mask.params_view() == v,
                forall|ii: int|
                    in_grid(v, j as int, ii) ==> (mask.is_erased(j as int, ii) <==> listed(
                        rectangle_positions(groups@, indices@),
                        j as int,
                        ii,
                    )),
                fes(inner@) == iv,
                left@ == prod(ov, gamma_seq(v)[j as int]) % modulus(),
                i <= v.m,
                forall|ii: int|
                    0 <= ii < i ==> {
                        &&& #[trigger] row@[ii]@ == (prod(ov, gamma_seq(v)[j as int]) % modulus() * (prod(
                            iv,
                            point_value(v, Scheme::Product, j as int, ii),
                        ) % modulus())) % modulus()
                        &&& (row@[ii]@ == 0) != listed(rectangle_positions(groups@, indices@), j as int, ii)
                    },
            decreases v.m - i,
        {
            let x = domain.point(Scheme::Product, j, i)?;
            let right = outer_product(inner.as_slice(), inner.len(), x);
            assert(fes(inner@).take(inner.len() as int) == iv);
            let direct = left.mul(right);
            let value = row[i];
            proof {
                use_type_invariant(&value);
                use_type_invariant(&direct);
                if value@ == direct@ {
                    Fe::lemma_eq(value, direct);
                }
            }
            require(value == direct, "witness factor/encoding mismatch")?;
            let erased = mask.contains(j, i)?;
            require(value.is_zero() != erased, "witness support mismatch")?;
            i = i + 1;
        }
        let ghost before = values@;
        values.push(row);
        assert forall|t: int, i: int| 0 <= t < j + 1 && 0 <= i < v.m implies {
            &&& #[trigger] values@[t]@[i]@ == (prod(ov, gamma_seq(v)[t]) % modulus() * (prod(
                iv,
                point_value(v, Scheme::Product, t, i),
            ) % modulus())) % modulus()
            &&& (values@[t]@[i]@ == 0) != listed(rectangle_positions(groups@, indices@), t, i)
            &&& values@[t]@[i]@ == peval(
                crate::protocol::message_local(v, table, mv, t),
                point_value(v, Scheme::Product, t, i),
            )
        } by {
            if t < j {
                assert(values@[t] == before[t]);
            }
        }
        j = j + 1;
    }
    let w = ProductWitness { message, values };
    assert(w.message.len() == v.k());
    assert(w.values.len() == v.ell);
    assert(exists|t: int| 0 <= t < w.message.len() && #[trigger] w.message@[t]@ != 0);
    assert(forall|j: int| 0 <= j < v.ell ==> (#[trigger] w.values@[j]).len() == v.m);
    assert(fes(w.message@) == mv);
    assert(forall|j: int, i: int|
        0 <= j < v.ell && 0 <= i < v.m ==> {
            &&& #[trigger] w.values@[j]@[i]@ == (prod(ov, gamma_seq(v)[j]) % modulus() * (prod(
                iv,
                point_value(v, Scheme::Product, j, i),
            ) % modulus())) % modulus()
            &&& (w.values@[j]@[i]@ == 0) != listed(rectangle_positions(groups@, indices@), j, i)
            &&& w.values@[j]@[i]@ == peval(
                crate::protocol::message_local(v, domain.weight_table(), fes(w.message@), j),
                point_value(v, Scheme::Product, j, i),
            )
        });
    assert(is_product_witness(w, v, domain.weight_table(), groups@, indices@));
    Ok(w)
}

} // verus!
