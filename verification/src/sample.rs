//! Per-tag sample store: an insertion-ordered list of recorded durations
//! (in nanoseconds) with derived statistics (count, mean, rank-based
//! percentiles).

use vstd::prelude::*;
use vstd::seq_lib::*;
use vstd::relations::{sorted_by, total_ordering};
use vstd::arithmetic::div_mod::{
    lemma_div_is_ordered, lemma_div_multiples_vanish, lemma_fundamental_div_mod_converse,
};
use vstd::arithmetic::mul::{lemma_mul_inequality, lemma_mul_upper_bound};

verus! {

/// Folding operator that adds a duration onto a running total.
pub open spec fn add_op() -> spec_fn(u64, int) -> int {
    |x: u64, acc: int| acc + x
}

/// The sum of a sequence of durations, as an unbounded integer.
pub open spec fn sum_of(s: Seq<u64>) -> int {
    s.fold_right(add_op(), 0)
}

/// The arithmetic mean (integer division, truncating toward zero).
pub open spec fn mean_of(s: Seq<u64>) -> int {
    sum_of(s) / (s.len() as int)
}

/// Ascending order on durations.
pub open spec fn le_op() -> spec_fn(u64, u64) -> bool {
    |a: u64, b: u64| a <= b
}

/// The recorded durations rearranged into ascending order.
pub open spec fn sorted_of(s: Seq<u64>) -> Seq<u64> {
    s.sort_by(le_op())
}

/// The 1-based rank selected by percentile `p` over `n` samples:
/// the ceiling of `p/100 * n`.
pub open spec fn rank_of(p: u64, n: nat) -> int {
    (p * n + 99) / 100
}

/// The rank-based percentile: the value at ascending sorted position
/// `rank_of(p, n)`, 1-indexed. No interpolation is performed.
pub open spec fn percentile_of(s: Seq<u64>, p: u64) -> u64 {
    sorted_of(s)[rank_of(p, s.len()) - 1]
}

/// The recorded durations for one tag, in arrival order.
///
/// Durations are elapsed-time measurements in whole nanoseconds, so they are
/// never negative; `u64` nanoseconds covers centuries of elapsed time.
pub struct BenchResult {
    list: Vec<u64>,
}

impl View for BenchResult {
    type V = Seq<u64>;

    closed spec fn view(&self) -> Seq<u64> {
        self.list@
    }
}

impl Clone for BenchResult {
    /// Copies the store; the copy holds exactly the same samples.
    fn clone(&self) -> (r: Self)
        ensures
            r@ == self@,
    {
        let mut list: Vec<u64> = Vec::new();
        let mut i: usize = 0;
        while i < self.list.len()
            invariant
                i <= self.list.len(),
                list@ == self.list@.take(i as int),
            decreases self.list.len() - i,
        {
            list.push(self.list[i]);
            proof {
                assert(self.list@.take(i + 1) =~= self.list@.take(i as int).push(
                    self.list@[i as int],
                ));
            }
            i = i + 1;
        }
        proof {
            assert(self.list@.take(self.list@.len() as int) =~= self.list@);
        }
        BenchResult { list }
    }
}

impl BenchResult {
    /// Creates an empty store.
    pub fn new() -> (r: Self)
        ensures
            r@ == Seq::<u64>::empty(),
    {
        BenchResult { list: Vec::new() }
    }

    /// The number of recorded samples.
    pub fn n(&self) -> (r: usize)
        ensures
            r == self@.len(),
    {
        self.list.len()
    }

    /// Appends one recorded duration; always succeeds.
    pub fn add_result(&mut self, du: u64)
        ensures
            final(self)@ == old(self)@.push(du),
    {
        self.list.push(du);
    }

    /// The mean of the recorded samples, truncating integer division.
    ///
    /// Computing a mean over zero samples is caller misuse, so at least one
    /// sample is required.
    pub fn average(&self) -> (r: u64)
        requires
            self@.len() >= 1,
        ensures
            r as int == mean_of(self@),
    {
        let ghost s = self@;
        let n = self.list.len();
        let mut sum: u128 = 0;
        let mut i: usize = 0;
        proof {
            lemma_sum_bounds(s);
        }
        while i < n
            invariant
                i <= n,
                n == s.len(),
                s == self@,
                sum as int == sum_of(s.take(i as int)),
            decreases n - i,
        {
            proof {
                lemma_sum_take_succ(s, i as int);
                lemma_sum_bounds(s.take(i + 1));
                lemma_mul_upper_bound(
                    s.take(i + 1).len() as int,
                    u64::MAX as int,
                    u64::MAX as int,
                    u64::MAX as int,
                );
            }
            sum = sum + (self.list[i] as u128);
            i = i + 1;
        }
        proof {
            assert(s.take(n as int) =~= s);
            lemma_sum_bounds(s);
            lemma_mul_inequality(s.len() as int, u64::MAX as int, u64::MAX as int);
            lemma_mean_fits(s);
        }
        (sum / (n as u128)) as u64
    }

    /// The rank-based percentile of the recorded samples for `p` in
    /// `(0, 100]`; requires at least one sample.
    pub fn percentile(&self, p: u64) -> (r: u64)
        requires
            1 <= p <= 100,
            self@.len() >= 1,
        ensures
            r == percentile_of(self@, p),
    {
        let sorted = sort_durations(&self.list);
        let n = self.list.len();
        proof {
            broadcast use group_to_multiset_ensures;

            lemma_le_total_ordering();
            self@.lemma_sort_by_ensures(le_op());
            assert(sorted@.to_multiset().len() == sorted@.len());
            assert(self@.to_multiset().len() == self@.len());
            lemma_rank_bounds(p, self@.len());
        }
        let rank = (((p as u128) * (n as u128) + 99) / 100) as usize;
        sorted[rank - 1]
    }
}

/// Returns a copy of `v` in ascending order (insertion sort).
fn sort_durations(v: &Vec<u64>) -> (r: Vec<u64>)
    ensures
        r@ == sorted_of(v@),
{
    let mut out: Vec<u64> = Vec::new();
    let mut i: usize = 0;
    proof {
        assert(v@.take(0) =~= Seq::<u64>::empty());
    }
    while i < v.len()
        invariant
            i <= v.len(),
            sorted_by(out@, le_op()),
            out@.to_multiset() == v@.take(i as int).to_multiset(),
            out@.len() == i,
        decreases v.len() - i,
    {
        let x = v[i];
        let ghost prev = out@;
        let mut j: usize = 0;
        while j < out.len() && out[j] < x
            invariant
                j <= out.len(),
                out@ == prev,
                forall|k: int| 0 <= k < j ==> out@[k] < x,
            decreases out.len() - j,
        {
            j = j + 1;
        }
        out.insert(j, x);
        proof {
            broadcast use group_to_multiset_ensures;

            lemma_insert_preserves_sorted(prev, j as int, x);
            lemma_seq_insert_multiset(prev, j as int, x);
            assert(v@.take(i + 1) =~= v@.take(i as int).push(x));
            assert(out@.to_multiset() =~= v@.take(i + 1).to_multiset());
        }
        i = i + 1;
    }
    proof {
        assert(v@.take(v@.len() as int) =~= v@);
        lemma_le_total_ordering();
        v@.lemma_sort_by_ensures(le_op());
        lemma_sorted_unique(out@, sorted_of(v@), le_op());
        assert(out@ =~= sorted_of(v@));
    }
    out
}

/// `le_op` is a total ordering on durations.
pub proof fn lemma_le_total_ordering()
    ensures
        total_ordering(le_op()),
{
    assert forall|a: u64, b: u64, c: u64| #[trigger] le_op()(a, b) && #[trigger] le_op()(b, c)
        implies le_op()(a, c) by {};
    assert forall|a: u64| #[trigger] le_op()(a, a) by {};
}

/// Shifting the base of the summing fold adds the base to the sum.
proof fn lemma_sum_shift(s: Seq<u64>, b: int)
    ensures
        s.fold_right(add_op(), b) == sum_of(s) + b,
    decreases s.len(),
{
    if s.len() > 0 {
        lemma_sum_shift(s.drop_last(), add_op()(s.last(), b));
        lemma_sum_shift(s.drop_last(), add_op()(s.last(), 0));
    }
}

/// Extending a prefix by one element adds that element to its sum.
proof fn lemma_sum_take_succ(s: Seq<u64>, i: int)
    requires
        0 <= i < s.len(),
    ensures
        sum_of(s.take(i + 1)) == sum_of(s.take(i)) + s[i],
    decreases s.len(),
{
    let t = s.take(i + 1);
    assert(t.drop_last() =~= s.take(i));
    assert(t.last() == s[i]);
    lemma_sum_shift(t.drop_last(), add_op()(t.last(), 0));
}

/// The sum of `n` durations lies between `0` and `n * u64::MAX`.
pub proof fn lemma_sum_bounds(s: Seq<u64>)
    ensures
        0 <= sum_of(s) <= s.len() * (u64::MAX as int),
    decreases s.len(),
{
    if s.len() == 0 {
    } else {
        lemma_sum_bounds(s.drop_last());
        lemma_sum_shift(s.drop_last(), add_op()(s.last(), 0));
        assert(s.len() * (u64::MAX as int) == s.drop_last().len() * (u64::MAX as int) + (
        u64::MAX as int)) by (nonlinear_arith)
            requires
                s.len() == s.drop_last().len() + 1,
        ;
    }
}

/// The mean of at least one `u64` sample fits in a `u64`.
proof fn lemma_mean_fits(s: Seq<u64>)
    requires
        s.len() >= 1,
    ensures
        0 <= mean_of(s) <= u64::MAX as int,
{
    lemma_sum_bounds(s);
    lemma_div_is_ordered(0, sum_of(s), s.len() as int);
    lemma_div_is_ordered(sum_of(s), s.len() * (u64::MAX as int), s.len() as int);
    lemma_div_multiples_vanish(u64::MAX as int, s.len() as int);
    assert(s.len() * (u64::MAX as int) == (s.len() as int) * (u64::MAX as int));
}

/// The mean depends only on which samples were recorded, not on the order
/// of their arrival: two stores holding the same multiset of samples have
/// the same mean.
pub proof fn lemma_mean_permutation(a: Seq<u64>, b: Seq<u64>)
    requires
        a.to_multiset() == b.to_multiset(),
        a.len() >= 1,
    ensures
        mean_of(a) == mean_of(b),
{
    broadcast use group_to_multiset_ensures;

    assert(a.to_multiset().len() == a.len());
    assert(b.to_multiset().len() == b.len());
    assert(commutative_foldr(add_op()));
    lemma_fold_right_permutation(a, b, add_op(), 0);
}

/// Inserting into a sorted sequence at the first position whose element is
/// not below the new value keeps the sequence sorted.
proof fn lemma_insert_preserves_sorted(s: Seq<u64>, j: int, x: u64)
    requires
        sorted_by(s, le_op()),
        0 <= j <= s.len(),
        forall|k: int| 0 <= k < j ==> s[k] < x,
        j < s.len() ==> x <= s[j],
    ensures
        sorted_by(s.insert(j, x), le_op()),
{
    let t = s.insert(j, x);
    s.insert_ensures(j, x);
    assert forall|p: int, q: int| 0 <= p < q < t.len() implies le_op()(t[p], t[q]) by {
        if p < j && q < j {
            assert(le_op()(s[p], s[q]));
        } else if p < j && q == j {
            assert(s[p] < x);
        } else if p < j && q > j {
            assert(le_op()(s[p], s[q - 1]) || p == q - 1);
            if p == q - 1 {
                assert(s[p] < x && x <= s[q - 1] || j == q - 1);
            }
        } else if p == j && q > j {
            assert(x <= s[j] && (j == q - 1 || le_op()(s[j], s[q - 1])));
        } else if p > j && q > j {
            assert(le_op()(s[p - 1], s[q - 1]) || p == q - 1);
        }
    };
}

/// Inserting an element anywhere adds exactly that element to the multiset.
proof fn lemma_seq_insert_multiset(s: Seq<u64>, j: int, x: u64)
    requires
        0 <= j <= s.len(),
    ensures
        s.insert(j, x).to_multiset() =~= s.to_multiset().insert(x),
{
    broadcast use group_to_multiset_ensures;
    broadcast use vstd::multiset::group_multiset_axioms;

    let left = s.subrange(0, j);
    let right = s.subrange(j, s.len() as int);
    assert(s =~= left + right);
    lemma_multiset_commutative(left, right);
    lemma_multiset_commutative(left.push(x), right);
    assert(left.push(x).to_multiset() =~= left.to_multiset().insert(x));
    assert(s.insert(j, x) == left.push(x) + right);
}

/// `1 <= rank_of(p, n) <= n` whenever `p` lies in `(0, 100]` and there is at
/// least one sample, so the selected rank always names a sample.
pub proof fn lemma_rank_bounds(p: u64, n: nat)
    requires
        1 <= p <= 100,
        n >= 1,
    ensures
        1 <= rank_of(p, n) <= n,
{
    lemma_mul_inequality(1, p as int, n as int);
    lemma_mul_inequality(p as int, 100, n as int);
    lemma_div_is_ordered(100, p * n + 99, 100);
    lemma_div_is_ordered(p * n + 99, 100 * (n as int) + 99, 100);
    lemma_fundamental_div_mod_converse(100, 100, 1, 0);
    lemma_fundamental_div_mod_converse(100 * (n as int) + 99, 100, n as int, 99);
}

/// The 100th percentile of a non-empty sample set is its maximum: it is one
/// of the recorded samples, and no recorded sample exceeds it.
pub proof fn lemma_percentile_100_is_max(s: Seq<u64>)
    requires
        s.len() >= 1,
    ensures
        s.contains(percentile_of(s, 100)),
        forall|k: int| 0 <= k < s.len() ==> s[k] <= percentile_of(s, 100),
{
    broadcast use group_to_multiset_ensures;

    lemma_le_total_ordering();
    s.lemma_sort_by_ensures(le_op());
    let t = sorted_of(s);
    assert(t.to_multiset().len() == t.len());
    assert(s.to_multiset().len() == s.len());
    lemma_fundamental_div_mod_converse(100 * (s.len() as int) + 99, 100, s.len() as int, 99);
    assert(rank_of(100, s.len()) == s.len());
    let m = t[s.len() - 1];
    assert(t.contains(m));
    assert(t.to_multiset().count(m) > 0);
    assert(s.contains(m));
    assert forall|k: int| 0 <= k < s.len() implies s[k] <= m by {
        assert(s.contains(s[k]));
        assert(s.to_multiset().count(s[k]) > 0);
        assert(t.contains(s[k]));
        let j = choose|j: int| 0 <= j < t.len() && t[j] == s[k];
        if j < s.len() - 1 {
            assert(le_op()(t[j], t[s.len() - 1]));
        }
    };
}

/// For a fixed sample set, the percentile is monotonically non-decreasing
/// in `p`.
pub proof fn lemma_percentile_monotonic(s: Seq<u64>, p1: u64, p2: u64)
    requires
        1 <= p1 <= p2 <= 100,
        s.len() >= 1,
    ensures
        percentile_of(s, p1) <= percentile_of(s, p2),
{
    lemma_le_total_ordering();
    s.lemma_sort_by_ensures(le_op());
    broadcast use group_to_multiset_ensures;

    assert(sorted_of(s).to_multiset().len() == sorted_of(s).len());
    assert(s.to_multiset().len() == s.len());
    lemma_rank_bounds(p1, s.len());
    lemma_rank_bounds(p2, s.len());
    lemma_mul_inequality(p1 as int, p2 as int, s.len() as int);
    lemma_div_is_ordered(p1 * s.len() + 99, p2 * s.len() + 99, 100);
    let i1 = rank_of(p1, s.len()) - 1;
    let i2 = rank_of(p2, s.len()) - 1;
    if i1 < i2 {
        assert(le_op()(sorted_of(s)[i1], sorted_of(s)[i2]));
    }
}

} // verus!
