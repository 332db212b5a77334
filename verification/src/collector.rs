//! The sequential collector policy of the availability experiments: query random
//! positions of shuffled groups, certify a group after `threshold` accepted openings,
//! reject it after `n - threshold + 1` failures, and stop at a recovery target, a query
//! budget, or when every group is decided.
use rand_chacha::ChaCha20Rng;
use rand::seq::SliceRandom;
use rand::Rng;
use vstd::prelude::*;

verus! {

/// Groups of the reference profile.
pub const GROUPS: usize = 123;

/// Positions per group.
pub const POSITIONS: usize = 1024;

/// Accepted openings that certify a group.
pub const THRESHOLD: usize = 768;

/// Certified groups that recover the data.
pub const TARGET: usize = 82;

/// `SliceRandom::shuffle` from rand: a uniformly random permutation, in place.
#[verifier::external_body]
pub(crate) fn shuffle<T>(v: &mut Vec<T>, rng: &mut ChaCha20Rng)
    ensures
        final(v)@.to_multiset() == old(v)@.to_multiset(),
        final(v).len() == old(v).len(),
{
    v.shuffle(rng);
}

/// `Rng::gen_range(lo..hi)` from rand: a uniformly random index in the range.
#[verifier::external_body]
fn gen_index(rng: &mut ChaCha20Rng, lo: usize, hi: usize) -> (r: usize)
    requires
        lo < hi,
    ensures
        lo <= r < hi,
{
    rng.gen_range(lo..hi)
}

/// `Rng::gen_ratio(1, 5)` from rand: `true` with probability one fifth. It draws the
/// same 64 bits and compares them with the same bound as `gen_bool(0.2)`.
#[verifier::external_body]
fn one_in_five(rng: &mut ChaCha20Rng) -> bool {
    rng.gen_ratio(1, 5)
}

/// Number of `true` entries.
pub open spec fn trues(s: Seq<bool>) -> nat
    decreases s.len(),
{
    if s.len() == 0 {
        0
    } else {
        trues(s.drop_last()) + if s.last() {
            1nat
        } else {
            0nat
        }
    }
}

/// Number of groups with at least `threshold` available positions.
pub open spec fn recoverable(groups: Seq<Seq<bool>>, threshold: int) -> nat
    decreases groups.len(),
{
    if groups.len() == 0 {
        0
    } else {
        recoverable(groups.drop_last(), threshold) + if trues(groups.last()) >= threshold {
            1nat
        } else {
            0nat
        }
    }
}

/// Number of unavailable positions over all groups.
pub open spec fn missing(groups: Seq<Seq<bool>>) -> nat
    decreases groups.len(),
{
    if groups.len() == 0 {
        0
    } else {
        missing(groups.drop_last()) + (groups.last().len() - trues(groups.last())) as nat
    }
}

/// The availability patterns of the experiment.
#[derive(Clone, Copy, Debug, PartialEq, Eq, Structural)]
pub enum Pattern {
    /// The first 41 groups are gone.
    S1,
    /// 200 positions missing in each of the first 82 groups, 300 in the others.
    S2,
    /// Every position missing independently with probability one fifth.
    S3,
}

impl Pattern {
    /// The pattern's name.
    pub fn name(self) -> (s: &'static str)
        ensures
            s@ == match self {
                Pattern::S1 => "S1"@,
                Pattern::S2 => "S2"@,
                Pattern::S3 => "S3"@,
            },
    {
        match self {
            Pattern::S1 => "S1",
            Pattern::S2 => "S2",
            Pattern::S3 => "S3",
        }
    }

    /// A random availability table of `GROUPS` groups of `POSITIONS` positions.
    pub fn availability(self, rng: &mut ChaCha20Rng) -> (table: Vec<Vec<bool>>)
        ensures
            table.len() == GROUPS,
            forall|g: int| 0 <= g < GROUPS ==> (#[trigger] table@[g]).len() == POSITIONS,
            self == Pattern::S1 ==> forall|g: int, i: int|
                0 <= g < GROUPS && 0 <= i < POSITIONS ==> #[trigger] table@[g]@[i] == (g >= 41),
            self == Pattern::S2 ==> forall|g: int|
                0 <= g < GROUPS ==> #[trigger] trues(table@[g]@) == POSITIONS - if g < 82 {
                    200int
                } else {
                    300int
                },
    {
        let mut table: Vec<Vec<bool>> = Vec::new();
        let mut group: usize = 0;
        while group < GROUPS
            invariant
                group <= GROUPS,
                table.len() == group,
                forall|g: int| 0 <= g < group ==> (#[trigger] table@[g]).len() == POSITIONS,
                self == Pattern::S1 ==> forall|g: int, i: int|
                    0 <= g < group && 0 <= i < POSITIONS ==> #[trigger] table@[g]@[i] == (g >= 41),
                self == Pattern::S2 ==> forall|g: int|
                    0 <= g < group ==> #[trigger] trues(table@[g]@) == POSITIONS - if g < 82 {
                        200int
                    } else {
                        300int
                    },
            decreases GROUPS - group,
        {
            let row = match self {
                Pattern::S1 => constant_row(group >= 41, POSITIONS),
                Pattern::S2 => {
                    let missing = if group < 82 {
                        200
                    } else {
                        300
                    };
                    let mut positions = prefix_false_row(missing, POSITIONS);
                    shuffle(&mut positions, rng);
                    proof {
                        lemma_trues_multiset(positions@);
                        lemma_trues_multiset(prefix_false(missing as nat, POSITIONS as nat));
                    }
                    positions
                },
                Pattern::S3 => {
                    let mut row: Vec<bool> = Vec::new();
                    let mut i: usize = 0;
                    while i < POSITIONS
                        invariant
                            i <= POSITIONS,
                            row.len() == i,
                        decreases POSITIONS - i,
                    {
                        row.push(!one_in_five(rng));
                        i = i + 1;
                    }
                    row
                },
            };
            table.push(row);
            group = group + 1;
        }
        table
    }
}

/// `n` copies of `value`.
fn constant_row(value: bool, n: usize) -> (r: Vec<bool>)
    ensures
        r.len() == n,
        forall|i: int| 0 <= i < n ==> #[trigger] r@[i] == value,
{
    let mut r: Vec<bool> = Vec::new();
    let mut i: usize = 0;
    while i < n
        invariant
            i <= n,
            r.len() == i,
            forall|t: int| 0 <= t < i ==> #[trigger] r@[t] == value,
        decreases n - i,
    {
        r.push(value);
        i = i + 1;
    }
    r
}

/// `k` unavailable positions, then available ones, `n` in all.
pub open spec fn prefix_false(k: nat, n: nat) -> Seq<bool> {
    Seq::new(n, |i: int| i >= k)
}

/// `k` unavailable positions, then available ones, `n` in all.
fn prefix_false_row(k: usize, n: usize) -> (r: Vec<bool>)
    requires
        k <= n,
    ensures
        r@ == prefix_false(k as nat, n as nat),
        trues(r@) == n - k,
{
    let mut r: Vec<bool> = Vec::new();
    let mut i: usize = 0;
    while i < n
        invariant
            k <= n,
            i <= n,
            r@ == prefix_false(k as nat, i as nat),
            trues(r@) == if i <= k { 0int } else { i - k },
        decreases n - i,
    {
        let ghost before = r@;
        r.push(i >= k);
        assert(r@.drop_last() == before);
        assert(r@ == prefix_false(k as nat, (i + 1) as nat));
        i = i + 1;
    }
    r
}

/// The number of `true` entries is the multiplicity of `true`.
proof fn lemma_trues_multiset(s: Seq<bool>)
    ensures
        trues(s) == s.to_multiset().count(true),
    decreases s.len(),
{
    broadcast use vstd::seq_lib::group_to_multiset_ensures;
    if s.len() > 0 {
        lemma_trues_multiset(s.drop_last());
        assert(s == s.drop_last().push(s.last()));
        assert(s.to_multiset() == s.drop_last().to_multiset().insert(s.last()));
    }
}

/// Counts of one collector run.
#[derive(Clone, Copy, Debug)]
pub struct Counts {
    /// Openings requested.
    pub queries: usize,
    /// Openings that verified.
    pub accepted: usize,
    /// Openings that failed.
    pub failed: usize,
    /// Groups that reached the acceptance threshold.
    pub certified_groups: usize,
    /// Groups that reached the failure limit.
    pub rejected_groups: usize,
    /// Groups queried at all.
    pub touched_groups: usize,
    /// Groups that hold enough available positions to be certified.
    pub recoverable_groups: usize,
    /// Unavailable positions over all groups.
    pub missing_positions: usize,
    /// Whether the recovery target was reached.
    pub reached_target: bool,
    /// `recovery_target`, `query_budget` or `groups_exhausted`.
    pub stop_reason: &'static str,
}


/// `sum_{u < s.len()} f(s[u])`.
pub open spec fn sum_of(s: Seq<usize>, f: spec_fn(usize) -> int) -> int
    decreases s.len(),
{
    if s.len() == 0 {
        0
    } else {
        sum_of(s.drop_last(), f) + f(s.last())
    }
}

/// `0, 1, ..., n - 1`.
pub open spec fn upto(n: nat) -> Seq<usize> {
    Seq::new(n, |i: int| i as usize)
}

/// Removing an element takes its term out of the sum.
proof fn lemma_sum_remove(s: Seq<usize>, i: int, f: spec_fn(usize) -> int)
    requires
        0 <= i < s.len(),
    ensures
        sum_of(s, f) == sum_of(s.remove(i), f) + f(s[i]),
    decreases s.len(),
{
    if i < s.len() - 1 {
        lemma_sum_remove(s.drop_last(), i, f);
        assert(s.remove(i).drop_last() == s.drop_last().remove(i));
        assert(s.remove(i).last() == s.last());
    } else {
        assert(s.remove(i) == s.drop_last());
    }
}

/// Sums do not depend on the order of the terms.
proof fn lemma_sum_permutation(s1: Seq<usize>, s2: Seq<usize>, f: spec_fn(usize) -> int)
    requires
        s1.to_multiset() == s2.to_multiset(),
    ensures
        sum_of(s1, f) == sum_of(s2, f),
    decreases s1.len(),
{
    broadcast use vstd::seq_lib::group_to_multiset_ensures;
    if s1.len() == 0 {
        assert(s2.to_multiset().len() == 0);
        assert(s2.len() == 0);
    } else {
        let x = s1.last();
        assert(s1 == s1.drop_last().push(x));
        assert(s1.to_multiset().count(x) > 0);
        assert(s2.to_multiset().contains(x));
        assert(s2.contains(x));
        let i = choose|i: int| 0 <= i < s2.len() && s2[i] == x;
        lemma_sum_remove(s2, i, f);
        assert(s2.remove(i).to_multiset() == s2.to_multiset().remove(x));
        assert(s1.drop_last().to_multiset() == s1.to_multiset().remove(x));
        lemma_sum_permutation(s1.drop_last(), s2.remove(i), f);
    }
}

/// A prefix sum of nonnegative terms is at most the whole sum.
proof fn lemma_sum_prefix(s: Seq<usize>, k: int, f: spec_fn(usize) -> int)
    requires
        0 <= k <= s.len(),
        forall|x: usize| #[trigger] f(x) >= 0,
    ensures
        sum_of(s.take(k), f) <= sum_of(s, f),
    decreases s.len() - k,
{
    if k < s.len() {
        lemma_sum_prefix(s, k + 1, f);
        assert(s.take(k + 1).drop_last() == s.take(k));
    } else {
        assert(s.take(k) == s);
    }
}

/// The sum of `f` over `0..n` where `f(g)` reads group `g`.
proof fn lemma_sum_upto(n: nat, f: spec_fn(usize) -> int, g: spec_fn(int) -> int)
    requires
        forall|i: int| 0 <= i < n ==> #[trigger] f(i as usize) == g(i),
        n <= usize::MAX,
    ensures
        sum_of(upto(n), f) == sum_to(n as int, g),
    decreases n,
{
    if n > 0 {
        assert(upto(n).drop_last() == upto((n - 1) as nat));
        lemma_sum_upto((n - 1) as nat, f, g);
    }
}

/// `sum_{i < n} g(i)`.
pub open spec fn sum_to(n: int, g: spec_fn(int) -> int) -> int
    decreases n,
{
    if n <= 0 {
        0
    } else {
        sum_to(n - 1, g) + g(n - 1)
    }
}

/// Sizes of groups.
pub open spec fn total_len(groups: Seq<Seq<bool>>) -> nat
    decreases groups.len(),
{
    if groups.len() == 0 {
        0
    } else {
        total_len(groups.drop_last()) + groups.last().len()
    }
}

/// The views of the availability rows.
pub open spec fn rows(av: Seq<Vec<bool>>) -> Seq<Seq<bool>> {
    Seq::new(av.len(), |g: int| av[g]@)
}


/// Indicator of available positions of a row.
pub open spec fn avail(row: Seq<bool>) -> spec_fn(usize) -> int {
    |p: usize| if 0 <= p < row.len() && row[p as int] { 1int } else { 0int }
}

/// Indicator of unavailable positions of a row.
pub open spec fn unavail(row: Seq<bool>) -> spec_fn(usize) -> int {
    |p: usize| if 0 <= p < row.len() && !row[p as int] { 1int } else { 0int }
}

/// The available positions of a row, counted over `0..n`.
proof fn lemma_trues_sum(row: Seq<bool>, n: nat)
    requires
        n <= row.len(),
        row.len() <= usize::MAX,
    ensures
        sum_of(upto(n), avail(row)) == trues(row.take(n as int)),
        sum_of(upto(n), unavail(row)) == n - trues(row.take(n as int)),
    decreases n,
{
    if n > 0 {
        assert(upto(n).drop_last() == upto((n - 1) as nat));
        assert(upto(n).last() == (n - 1) as usize);
        lemma_trues_sum(row, (n - 1) as nat);
        assert(row.take(n as int).drop_last() == row.take(n - 1));
        assert(row.take(n as int).last() == row[n - 1]);
    }
}

/// Whether the group in slot `g` holds enough available positions.
pub open spec fn recoverable_at(groups: Seq<Seq<bool>>, threshold: int) -> spec_fn(usize) -> int {
    |g: usize| if 0 <= g < groups.len() && trues(groups[g as int]) >= threshold { 1int } else { 0int }
}

/// Whether the group in slot `g` lacks enough available positions.
pub open spec fn unrecoverable_at(groups: Seq<Seq<bool>>, threshold: int) -> spec_fn(usize) -> int {
    |g: usize| if 0 <= g < groups.len() && trues(groups[g as int]) < threshold { 1int } else { 0int }
}

/// The available positions of the group in slot `g` when it lacks enough of them.
pub open spec fn unrecoverable_trues_at(groups: Seq<Seq<bool>>, threshold: int) -> spec_fn(usize) -> int {
    |g: usize| if 0 <= g < groups.len() && trues(groups[g as int]) < threshold { trues(groups[g as int]) as int } else { 0int }
}

/// The unavailable positions of the group in slot `g` when it holds enough available ones.
pub open spec fn recoverable_missing_at(groups: Seq<Seq<bool>>, threshold: int) -> spec_fn(usize) -> int {
    |g: usize|
        if 0 <= g < groups.len() && trues(groups[g as int]) >= threshold {
            groups[g as int].len() - trues(groups[g as int])
        } else {
            0int
        }
}

/// The failures that reject the group in slot `g` when it lacks enough available positions.
pub open spec fn rejection_cost_at(groups: Seq<Seq<bool>>, threshold: int) -> spec_fn(usize) -> int {
    |g: usize|
        if 0 <= g < groups.len() && trues(groups[g as int]) < threshold {
            groups[g as int].len() - threshold + 1
        } else {
            0int
        }
}

/// One more factor adds the multiplier once.
proof fn lemma_mul_succ(a: int, c: int)
    ensures
        a * (c + 1) == a * c + a,
{
    assert(a * (c + 1) == a * c + a) by (nonlinear_arith);
}

/// No group holds more available positions than positions.
proof fn lemma_missing_nonnegative(groups: Seq<Seq<bool>>, threshold: int)
    ensures
        forall|x: usize| #[trigger] recoverable_missing_at(groups, threshold)(x) >= 0,
{
    assert forall|x: usize| #[trigger] recoverable_missing_at(groups, threshold)(x) >= 0 by {
        if 0 <= x < groups.len() {
            lemma_trues_bound(groups[x as int]);
        }
    }
}

/// `f` summed over every group slot.
pub open spec fn over_groups(groups: Seq<Seq<bool>>, f: spec_fn(usize) -> int) -> int {
    sum_of(upto(groups.len()), f)
}

/// The size of the group in slot `g`.
pub open spec fn size_at(groups: Seq<Seq<bool>>) -> spec_fn(usize) -> int {
    |g: usize| if 0 <= g < groups.len() { groups[g as int].len() as int } else { 0int }
}

/// Recoverable groups, sizes and unrecoverable groups, summed over slots `0..n`.
proof fn lemma_group_sums(groups: Seq<Seq<bool>>, threshold: int, n: nat)
    requires
        n <= groups.len(),
        groups.len() <= usize::MAX,
    ensures
        sum_of(upto(n), recoverable_at(groups, threshold)) == recoverable(groups.take(n as int), threshold),
        sum_of(upto(n), unrecoverable_at(groups, threshold)) == n - recoverable(groups.take(n as int), threshold),
        sum_of(upto(n), size_at(groups)) == total_len(groups.take(n as int)),
    decreases n,
{
    if n > 0 {
        assert(upto(n).drop_last() == upto((n - 1) as nat));
        assert(upto(n).last() == (n - 1) as usize);
        lemma_group_sums(groups, threshold, (n - 1) as nat);
        assert(groups.take(n as int).drop_last() == groups.take(n - 1));
        assert(groups.take(n as int).last() == groups[n - 1]);
    }
}

/// How the queries of one group ended.
#[derive(Clone, Copy, Debug, PartialEq, Eq, Structural)]
enum GroupEnd {
    /// `threshold` openings were accepted.
    Certified,
    /// `n - threshold + 1` openings failed.
    Rejected,
    /// The query budget ran out first.
    Budget,
}

/// Query the positions of one group in a uniformly random order, without replacement,
/// until it is certified, rejected, or the budget is spent.
fn query_group(
    available: &[bool],
    threshold: usize,
    budget: Option<usize>,
    before: usize,
    rng: &mut ChaCha20Rng,
) -> (res: (GroupEnd, usize, usize))
    requires
        0 < threshold <= available.len(),
        budget matches Some(l) ==> before <= l,
        before + available.len() <= usize::MAX,
    ensures
        res.1 + res.2 <= available.len(),
        res.0 == GroupEnd::Certified ==> res.1 == threshold && trues(available@) >= threshold,
        res.0 == GroupEnd::Rejected ==> res.2 == available.len() - threshold + 1 && trues(available@) < threshold,
        res.0 == GroupEnd::Budget ==> (budget matches Some(l) && before + res.1 + res.2 == l),
        res.0 == GroupEnd::Budget ==> res.1 < threshold && res.2 < available.len() - threshold + 1,
        res.1 <= trues(available@),
        res.2 <= available.len() - trues(available@),
        budget matches Some(l) ==> before + res.1 + res.2 <= l,
{
    let n = available.len();
    let ghost row = available@;
    let failure_limit = n - threshold + 1;
    let mut positions: Vec<usize> = Vec::new();
    let mut i: usize = 0;
    while i < n
        invariant
            i <= n,
            positions@ == upto(i as nat),
        decreases n - i,
    {
        positions.push(i);
        i = i + 1;
        assert(positions@ == upto(i as nat));
    }
    proof {
        assert(row.take(n as int) == row);
        lemma_trues_sum(row, n as nat);
        lemma_trues_bound(row);
    }
    let mut accepted: usize = 0;
    let mut failed: usize = 0;
    let mut index: usize = 0;
    while index < n
        invariant
            n == available.len(),
            row == available@,
            0 < threshold <= n,
            failure_limit == n - threshold + 1,
            positions.len() == n,
            positions@.to_multiset() == upto(n as nat).to_multiset(),
            forall|u: int| 0 <= u < n ==> #[trigger] positions@[u] < n,
            index <= n,
            accepted + failed == index,
            accepted == sum_of(positions@.take(index as int), avail(row)),
            failed == sum_of(positions@.take(index as int), unavail(row)),
            accepted < threshold,
            failed < failure_limit,
            accepted <= trues(row),
            failed <= n - trues(row),
            budget matches Some(l) ==> before + index <= l,
            before + n <= usize::MAX,
            sum_of(upto(n as nat), avail(row)) == trues(row),
            sum_of(upto(n as nat), unavail(row)) == n - trues(row),
        decreases n - index,
    {
        match budget {
            Some(l) => {
                if before + accepted + failed >= l {
                    return (GroupEnd::Budget, accepted, failed);
                }
            },
            None => {},
        }
        let next = gen_index(rng, index, n);
        let ghost old_positions = positions@;
        let a = positions[index];
        let b = positions[next];
        positions.set(index, b);
        positions.set(next, a);
        proof {
            broadcast use vstd::seq_lib::group_to_multiset_ensures;
            assert(positions@ == old_positions.update(index as int, b).update(next as int, a));
            assert(old_positions.update(index as int, b).to_multiset() == old_positions.to_multiset().insert(b).remove(a));
            assert(positions@.to_multiset() == old_positions.update(index as int, b).to_multiset().insert(a).remove(
                old_positions.update(index as int, b)[next as int],
            ));
            if next == index {
                assert(positions@ == old_positions);
            } else {
                assert(old_positions.update(index as int, b)[next as int] == b);
            }
            assert(positions@.to_multiset() =~= old_positions.to_multiset());
            assert(positions@.take(index as int) == old_positions.take(index as int));
            assert(positions@.take(index + 1).drop_last() == positions@.take(index as int));
        }
        let p = positions[index];
        if available[p] {
            accepted = accepted + 1;
        } else {
            failed = failed + 1;
        }
        proof {
            lemma_sum_permutation(positions@, upto(n as nat), avail(row));
            lemma_sum_permutation(positions@, upto(n as nat), unavail(row));
            lemma_sum_prefix(positions@, index + 1, avail(row));
            lemma_sum_prefix(positions@, index + 1, unavail(row));
        }
        if accepted == threshold {
            return (GroupEnd::Certified, accepted, failed);
        }
        if failed == failure_limit {
            return (GroupEnd::Rejected, accepted, failed);
        }
        index = index + 1;
    }
    (GroupEnd::Budget, accepted, failed)
}


/// Number of available positions.
fn count_available(row: &[bool]) -> (c: usize)
    ensures
        c == trues(row@),
{
    let mut c: usize = 0;
    let mut i: usize = 0;
    while i < row.len()
        invariant
            i <= row.len(),
            c == trues(row@.take(i as int)),
            c <= i,
        decreases row.len() - i,
    {
        assert(row@.take(i + 1).drop_last() == row@.take(i as int));
        if row[i] {
            c = c + 1;
        }
        i = i + 1;
    }
    assert(row@.take(row.len() as int) == row@);
    c
}

/// Run the collector policy: groups in a uniformly random order, positions of each group
/// in a uniformly random order without replacement. A recovery run (no budget) stops
/// once `target` groups are certified; a coverage run stops at the query budget.
pub fn simulate(
    availability: &[Vec<bool>],
    threshold: usize,
    target: usize,
    budget: Option<usize>,
    rng: &mut ChaCha20Rng,
) -> (r: Counts)
    requires
        forall|g: int| 0 <= g < availability.len() ==> 0 < threshold <= (#[trigger] availability@[g]).len(),
        total_len(rows(availability@)) <= usize::MAX,
    ensures
        r.queries == r.accepted + r.failed,
        r.recoverable_groups == recoverable(rows(availability@), threshold as int),
        r.missing_positions == missing(rows(availability@)),
        r.certified_groups + r.rejected_groups <= r.touched_groups <= availability.len(),
        r.certified_groups <= r.recoverable_groups,
        r.rejected_groups <= availability.len() - r.recoverable_groups,
        r.queries <= total_len(rows(availability@)),
        r.reached_target == (target == 0 || r.certified_groups >= target),
        budget matches Some(l) ==> r.queries <= l,
        r.stop_reason@ == "recovery_target"@ ==> budget is None && r.reached_target,
        r.stop_reason@ == "query_budget"@ ==> (budget matches Some(l) && r.queries == l),
        r.stop_reason@ == "groups_exhausted"@ ==> r.touched_groups == availability.len(),
        r.stop_reason@ == "recovery_target"@ || r.stop_reason@ == "query_budget"@ || r.stop_reason@
            == "groups_exhausted"@,
        r.accepted >= threshold * r.certified_groups,
        r.accepted <= threshold * r.touched_groups,
        r.accepted <= threshold * r.certified_groups + over_groups(
            rows(availability@),
            unrecoverable_trues_at(rows(availability@), threshold as int),
        ) + if r.stop_reason@ == "query_budget"@ {
            threshold - 1
        } else {
            0
        },
        r.failed <= over_groups(rows(availability@), recoverable_missing_at(rows(availability@), threshold as int))
            + over_groups(rows(availability@), rejection_cost_at(rows(availability@), threshold as int)),
        r.stop_reason@ == "groups_exhausted"@ ==> {
            &&& r.certified_groups == r.recoverable_groups
            &&& r.rejected_groups == availability.len() - r.recoverable_groups
            &&& r.failed >= over_groups(rows(availability@), rejection_cost_at(rows(availability@), threshold as int))
        },
        budget is None ==> (r.reached_target <==> (target == 0 || r.recoverable_groups >= target)),
        budget is None && target > 0 && r.reached_target ==> r.certified_groups == target && r.stop_reason@
            == "recovery_target"@,
{
    proof {
        lemma_stop_reasons_differ();
    }
    let ghost groups = rows(availability@);
    let n = availability.len();
    let mut recoverable_groups: usize = 0;
    let mut missing_positions: usize = 0;
    let mut g: usize = 0;
    while g < n
        invariant
            n == availability.len(),
            groups == rows(availability@),
            total_len(groups) <= usize::MAX,
            g <= n,
            recoverable_groups == recoverable(groups.take(g as int), threshold as int),
            missing_positions == missing(groups.take(g as int)),
            recoverable_groups <= g,
            missing_positions <= total_len(groups.take(g as int)),
            total_len(groups.take(g as int)) <= total_len(groups),
        decreases n - g,
    {
        let t = count_available(availability[g].as_slice());
        proof {
            assert(groups.take(g + 1).drop_last() == groups.take(g as int));
            assert(groups.take(g + 1).last() == availability@[g as int]@);
            assert(trues(availability@[g as int]@) <= availability@[g as int]@.len()) by {
                lemma_trues_bound(availability@[g as int]@);
            }
            lemma_total_len_prefix(groups, g + 1);
        }
        if t >= threshold {
            recoverable_groups = recoverable_groups + 1;
        }
        missing_positions = missing_positions + (availability[g].len() - t);
        g = g + 1;
    }
    proof {
        assert(groups.take(n as int) == groups);
        lemma_group_sums(groups, threshold as int, n as nat);
    }
    let mut result = Counts {
        queries: 0,
        accepted: 0,
        failed: 0,
        certified_groups: 0,
        rejected_groups: 0,
        touched_groups: 0,
        recoverable_groups,
        missing_positions,
        reached_target: target == 0,
        stop_reason: "groups_exhausted",
    };
    proof {
        let up = upto(n as nat);
        lemma_missing_nonnegative(groups, threshold as int);
        lemma_sum_prefix(up, 0, unrecoverable_trues_at(groups, threshold as int));
        lemma_sum_prefix(up, 0, recoverable_missing_at(groups, threshold as int));
        lemma_sum_prefix(up, 0, rejection_cost_at(groups, threshold as int));
        assert(up.take(0).len() == 0);
        assert(threshold * 0 == 0) by (nonlinear_arith);
    }
    if target == 0 && budget.is_none() {
        result.stop_reason = "recovery_target";
        return result;
    }
    let mut order: Vec<usize> = Vec::new();
    let mut i: usize = 0;
    while i < n
        invariant
            i <= n,
            order@ == upto(i as nat),
        decreases n - i,
    {
        order.push(i);
        i = i + 1;
        assert(order@ == upto(i as nat));
    }
    shuffle(&mut order, rng);
    proof {
        broadcast use vstd::seq_lib::group_to_multiset_ensures;
        lemma_sum_permutation(order@, upto(n as nat), recoverable_at(groups, threshold as int));
        lemma_sum_permutation(order@, upto(n as nat), unrecoverable_at(groups, threshold as int));
        lemma_sum_permutation(order@, upto(n as nat), size_at(groups));
        lemma_sum_permutation(order@, upto(n as nat), unrecoverable_trues_at(groups, threshold as int));
        lemma_sum_permutation(order@, upto(n as nat), recoverable_missing_at(groups, threshold as int));
        lemma_sum_permutation(order@, upto(n as nat), rejection_cost_at(groups, threshold as int));
        assert(order@.take(0).len() == 0);
        assert forall|u: int| 0 <= u < n implies #[trigger] order@[u] < n by {
            assert(order@.to_multiset().count(order@[u]) > 0);
            assert(upto(n as nat).to_multiset().contains(order@[u]));
            assert(upto(n as nat).contains(order@[u]));
        }
    }
    let mut t: usize = 0;
    while t < n
        invariant
            n == availability.len(),
            groups == rows(availability@),
            forall|gg: int| 0 <= gg < n ==> 0 < threshold <= (#[trigger] availability@[gg]).len(),
            total_len(groups) <= usize::MAX,
            order.len() == n,
            forall|u: int| 0 <= u < n ==> #[trigger] order@[u] < n,
            sum_of(order@, recoverable_at(groups, threshold as int)) == recoverable(groups, threshold as int),
            sum_of(order@, unrecoverable_at(groups, threshold as int)) == n - recoverable(groups, threshold as int),
            sum_of(order@, size_at(groups)) == total_len(groups),
            result.recoverable_groups == recoverable(groups, threshold as int),
            result.missing_positions == missing(groups),
            t <= n,
            result.touched_groups == t,
            result.queries == result.accepted + result.failed,
            result.queries <= sum_of(order@.take(t as int), size_at(groups)),
            sum_of(order@, unrecoverable_trues_at(groups, threshold as int)) == over_groups(
                groups,
                unrecoverable_trues_at(groups, threshold as int),
            ),
            sum_of(order@, recoverable_missing_at(groups, threshold as int)) == over_groups(
                groups,
                recoverable_missing_at(groups, threshold as int),
            ),
            sum_of(order@, rejection_cost_at(groups, threshold as int)) == over_groups(
                groups,
                rejection_cost_at(groups, threshold as int),
            ),
            result.certified_groups == sum_of(order@.take(t as int), recoverable_at(groups, threshold as int)),
            result.rejected_groups == sum_of(order@.take(t as int), unrecoverable_at(groups, threshold as int)),
            result.certified_groups + result.rejected_groups <= t,
            result.accepted >= threshold * result.certified_groups,
            result.accepted <= threshold * t,
            result.accepted <= threshold * result.certified_groups + sum_of(
                order@.take(t as int),
                unrecoverable_trues_at(groups, threshold as int),
            ),
            result.failed <= sum_of(order@.take(t as int), recoverable_missing_at(groups, threshold as int)) + sum_of(
                order@.take(t as int),
                rejection_cost_at(groups, threshold as int),
            ),
            result.failed >= sum_of(order@.take(t as int), rejection_cost_at(groups, threshold as int)),
            budget is None ==> result.certified_groups < target,
            result.reached_target == (target == 0 || result.certified_groups >= target),
            budget matches Some(l) ==> result.queries <= l,
            result.stop_reason@ == "groups_exhausted"@,
            "recovery_target"@ != "query_budget"@,
            "recovery_target"@ != "groups_exhausted"@,
            "query_budget"@ != "groups_exhausted"@,
            !(target == 0 && budget is None),
        decreases n - t,
    {
        proof {
            lemma_sum_prefix(order@, t as int, size_at(groups));
            lemma_sum_prefix(order@, t + 1, size_at(groups));
            lemma_sum_prefix(order@, t + 1, recoverable_at(groups, threshold as int));
            lemma_sum_prefix(order@, t + 1, unrecoverable_at(groups, threshold as int));
            lemma_sum_prefix(order@, t as int, recoverable_at(groups, threshold as int));
            lemma_sum_prefix(order@, t as int, unrecoverable_trues_at(groups, threshold as int));
            lemma_sum_prefix(order@, t + 1, unrecoverable_trues_at(groups, threshold as int));
            lemma_missing_nonnegative(groups, threshold as int);
            lemma_sum_prefix(order@, t as int, recoverable_missing_at(groups, threshold as int));
            lemma_sum_prefix(order@, t + 1, recoverable_missing_at(groups, threshold as int));
            lemma_sum_prefix(order@, t as int, rejection_cost_at(groups, threshold as int));
            lemma_sum_prefix(order@, t + 1, rejection_cost_at(groups, threshold as int));
            assert(order@.take(t + 1).drop_last() == order@.take(t as int));
            assert(order@.take(t + 1).last() == order@[t as int]);
        }
        match budget {
            Some(l) => {
                if result.queries >= l {
                    result.stop_reason = "query_budget";
                    return result;
                }
            },
            None => {},
        }
        let gi = order[t];
        let available = availability[gi].as_slice();
        proof {
            lemma_mul_succ(threshold as int, t as int);
            lemma_mul_succ(threshold as int, result.certified_groups as int);
        }
        result.touched_groups = result.touched_groups + 1;
        let (end, accepted, failed) = query_group(available, threshold, budget, result.queries, rng);
        result.queries = result.queries + accepted + failed;
        result.accepted = result.accepted + accepted;
        result.failed = result.failed + failed;
        match end {
            GroupEnd::Budget => {
                result.stop_reason = "query_budget";
                return result;
            },
            GroupEnd::Certified => {
                result.certified_groups = result.certified_groups + 1;
                result.reached_target = result.certified_groups >= target;
                if result.reached_target && budget.is_none() {
                    result.stop_reason = "recovery_target";
                    return result;
                }
            },
            GroupEnd::Rejected => {
                result.rejected_groups = result.rejected_groups + 1;
            },
        }
        t = t + 1;
    }
    proof {
        assert(order@.take(n as int) == order@);
    }
    result
}

/// The three stop reasons are different texts.
proof fn lemma_stop_reasons_differ()
    ensures
        "recovery_target"@ != "query_budget"@,
        "recovery_target"@ != "groups_exhausted"@,
        "query_budget"@ != "groups_exhausted"@,
{
    reveal_strlit("recovery_target");
    reveal_strlit("query_budget");
    reveal_strlit("groups_exhausted");
    assert("recovery_target"@[0] != "query_budget"@[0]);
    assert("recovery_target"@[0] != "groups_exhausted"@[0]);
    assert("query_budget"@[0] != "groups_exhausted"@[0]);
}

/// At most all entries are `true`.
proof fn lemma_trues_bound(s: Seq<bool>)
    ensures
        trues(s) <= s.len(),
    decreases s.len(),
{
    if s.len() > 0 {
        lemma_trues_bound(s.drop_last());
    }
}

/// Prefix sizes grow up to the total.
proof fn lemma_total_len_prefix(groups: Seq<Seq<bool>>, k: int)
    requires
        0 <= k <= groups.len(),
    ensures
        total_len(groups.take(k)) <= total_len(groups),
    decreases groups.len() - k,
{
    if k < groups.len() {
        lemma_total_len_prefix(groups, k + 1);
        assert(groups.take(k + 1).drop_last() == groups.take(k));
    } else {
        assert(groups.take(k) == groups);
    }
}

} // verus!
