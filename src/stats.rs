//! Running value statistics of one modifier: its `(value, price)` points and the
//! exact measures derived from their values.
use vstd::prelude::*;
use vstd::relations::*;
use vstd::seq_lib::*;
use crate::numeric::MAX_AMOUNT;

verus! {

broadcast use group_to_multiset_ensures;

/// A band of values, in thousandths.
#[derive(Debug, Clone, Copy, PartialEq, Eq)]
pub struct ValueRange {
    pub min: i64,
    pub max: i64,
    pub count: u32,
}

/// Exact measures of a list of values held in thousandths. The mean is
/// `sum / n` and the population variance `(n * sum_of_squares - sum * sum) / (n * n)`
/// for `n` values; `median_twice` is twice the median, so that the average of the
/// two middle values of an even count stays exact.
#[derive(Debug, Clone, Copy, PartialEq, Eq)]
pub struct StatisticalMeasures {
    pub sum: i128,
    pub sum_of_squares: i128,
    pub median_twice: i128,
    pub min: i64,
    pub max: i64,
}

pub open spec fn value_leq() -> spec_fn(i64, i64) -> bool {
    |a: i64, b: i64| a <= b
}

pub open spec fn sum_of(s: Seq<i64>) -> int
    decreases s.len(),
{
    if s.len() == 0 {
        0
    } else {
        sum_of(s.drop_last()) + s.last()
    }
}

pub open spec fn sum_of_squares_of(s: Seq<i64>) -> int
    decreases s.len(),
{
    if s.len() == 0 {
        0
    } else {
        sum_of_squares_of(s.drop_last()) + s.last() * s.last()
    }
}

/// The least value; `0` for no values.
pub open spec fn min_of(s: Seq<i64>) -> int
    decreases s.len(),
{
    if s.len() == 0 {
        0
    } else if s.len() == 1 {
        s[0] as int
    } else if s.last() < min_of(s.drop_last()) {
        s.last() as int
    } else {
        min_of(s.drop_last())
    }
}

/// The greatest value; `0` for no values.
pub open spec fn max_of(s: Seq<i64>) -> int
    decreases s.len(),
{
    if s.len() == 0 {
        0
    } else if s.len() == 1 {
        s[0] as int
    } else if s.last() > max_of(s.drop_last()) {
        s.last() as int
    } else {
        max_of(s.drop_last())
    }
}

/// Twice the median of an ascending list: the middle element doubled for an odd
/// count, the sum of the two middle elements for an even one; `0` when empty.
pub open spec fn median_twice_of_sorted(t: Seq<i64>) -> int {
    let m = t.len() as int / 2;
    if t.len() == 0 {
        0
    } else if t.len() % 2 == 1 {
        2 * t[m]
    } else {
        t[m - 1] + t[m]
    }
}

/// Twice the median of the values, taken over their ascending order.
pub open spec fn median_twice_of(s: Seq<i64>) -> int {
    median_twice_of_sorted(s.sort_by(value_leq()))
}

/// The measures that describe a list of values.
pub open spec fn measures_describe(m: StatisticalMeasures, s: Seq<i64>) -> bool {
    &&& m.sum == sum_of(s)
    &&& m.sum_of_squares == sum_of_squares_of(s)
    &&& m.median_twice == median_twice_of(s)
    &&& m.min == min_of(s)
    &&& m.max == max_of(s)
}

pub open spec fn values_of(points: Seq<(i64, i64)>) -> Seq<i64> {
    points.map_values(|p: (i64, i64)| p.0)
}

pub open spec fn amounts_in_range(s: Seq<i64>) -> bool {
    forall|i: int| 0 <= i < s.len() ==> -MAX_AMOUNT <= #[trigger] s[i] <= MAX_AMOUNT
}

/// Statistics of one modifier's observed values and the prices they sold at.
#[derive(Debug, Clone)]
pub struct ModifierStats {
    name: String,
    total_occurrences: u32,
    price_points: Vec<(i64, i64)>,
    sorted_values: Vec<i64>,
    measures: StatisticalMeasures,
}

proof fn lemma_value_order()
    ensures
        total_ordering(value_leq()),
{
}

proof fn lemma_sums_bounded(s: Seq<i64>)
    requires
        amounts_in_range(s),
    ensures
        -(s.len() * MAX_AMOUNT) <= sum_of(s) <= s.len() * MAX_AMOUNT,
        0 <= sum_of_squares_of(s) <= s.len() * (MAX_AMOUNT * MAX_AMOUNT),
    decreases s.len(),
{
    if s.len() > 0 {
        let t = s.drop_last();
        assert(amounts_in_range(t)) by {
            assert forall|i: int| 0 <= i < t.len() implies -MAX_AMOUNT <= #[trigger] t[i]
                <= MAX_AMOUNT by {
                assert(t[i] == s[i]);
            }
        }
        lemma_sums_bounded(t);
        let x = s.last();
        assert(-MAX_AMOUNT <= s[s.len() - 1] <= MAX_AMOUNT);
        assert(0 <= x * x <= MAX_AMOUNT * MAX_AMOUNT) by (nonlinear_arith)
            requires
                -MAX_AMOUNT <= x <= MAX_AMOUNT,
        ;
        assert(t.len() * (MAX_AMOUNT * MAX_AMOUNT) + MAX_AMOUNT * MAX_AMOUNT == s.len() * (
        MAX_AMOUNT * MAX_AMOUNT)) by (nonlinear_arith)
            requires
                s.len() == t.len() + 1,
        ;
        assert(t.len() * MAX_AMOUNT + MAX_AMOUNT == s.len() * MAX_AMOUNT) by (nonlinear_arith)
            requires
                s.len() == t.len() + 1,
        ;
    }
}

/// An ascending list with the same values as the observed ones is their sorted order.
proof fn lemma_sorted_is_sort_of(t: Seq<i64>, s: Seq<i64>)
    requires
        sorted_by(t, value_leq()),
        t.to_multiset() == s.to_multiset(),
    ensures
        t == s.sort_by(value_leq()),
{
    lemma_value_order();
    s.lemma_sort_by_ensures(value_leq());
    lemma_sorted_unique(t, s.sort_by(value_leq()), value_leq());
}

impl ModifierStats {
    pub closed spec fn name_view(&self) -> Seq<char> {
        self.name@
    }

    /// The observed `(value, price)` points, in order of observation.
    pub closed spec fn points(&self) -> Seq<(i64, i64)> {
        self.price_points@
    }

    pub open spec fn values(&self) -> Seq<i64> {
        values_of(self.points())
    }

    pub closed spec fn measures_view(&self) -> StatisticalMeasures {
        self.measures
    }

    pub closed spec fn wf(&self) -> bool {
        &&& self.total_occurrences as nat == self.price_points@.len()
        &&& amounts_in_range(self.values())
        &&& sorted_by(self.sorted_values@, value_leq())
        &&& self.sorted_values@.to_multiset() == self.values().to_multiset()
        &&& measures_describe(self.measures, self.values())
    }

    /// Statistics with no points yet, all measures zero.
    pub fn new(name: String) -> (r: Self)
        ensures
            r.wf(),
            r.name_view() == name@,
            r.points() == Seq::<(i64, i64)>::empty(),
            r.measures_view() == (StatisticalMeasures {
                sum: 0,
                sum_of_squares: 0,
                median_twice: 0,
                min: 0,
                max: 0,
            }),
    {
        let r = Self {
            name,
            total_occurrences: 0,
            price_points: Vec::new(),
            sorted_values: Vec::new(),
            measures: StatisticalMeasures { sum: 0, sum_of_squares: 0, median_twice: 0, min: 0, max: 0 },
        };
        assert(r.values() =~= Seq::<i64>::empty());
        proof {
            lemma_value_order();
            Seq::<i64>::empty().lemma_sort_by_ensures(value_leq());
            assert(Seq::<i64>::empty().sort_by(value_leq()).to_multiset().len() == 0);
            assert(r.sorted_values@.to_multiset() =~= r.values().to_multiset());
        }
        r
    }

    pub fn name(&self) -> (r: &String)
        ensures
            r@ == self.name_view(),
    {
        &self.name
    }

    pub fn total_occurrences(&self) -> (r: u32)
        requires
            self.wf(),
        ensures
            r == self.points().len(),
    {
        self.total_occurrences
    }

    pub fn price_points(&self) -> (r: &Vec<(i64, i64)>)
        ensures
            r@ == self.points(),
    {
        &self.price_points
    }

    pub fn measures(&self) -> (r: &StatisticalMeasures)
        requires
            self.wf(),
        ensures
            *r == self.measures_view(),
            measures_describe(*r, self.values()),
    {
        &self.measures
    }

    /// Records one observation and brings every measure up to date.
    pub fn add_data_point(&mut self, value: i64, price: i64)
        requires
            old(self).wf(),
            old(self).points().len() < u32::MAX,
            -MAX_AMOUNT <= value <= MAX_AMOUNT,
        ensures
            final(self).wf(),
            final(self).name_view() == old(self).name_view(),
            final(self).points() == old(self).points().push((value, price)),
    {
        let ghost old_values = self.values();
        self.total_occurrences = self.total_occurrences + 1;
        self.price_points.push((value, price));
        let ghost vals = self.values();
        assert(vals =~= old_values.push(value));
        assert(vals.drop_last() =~= old_values);
        proof {
            lemma_sums_bounded(vals);
            assert(vals.len() * MAX_AMOUNT <= u32::MAX * MAX_AMOUNT) by (nonlinear_arith)
                requires
                    vals.len() <= u32::MAX,
            ;
            assert(vals.len() * (MAX_AMOUNT * MAX_AMOUNT) <= u32::MAX * (MAX_AMOUNT * MAX_AMOUNT))
                by (nonlinear_arith)
                requires
                    vals.len() <= u32::MAX,
            ;
        }
        self.measures.sum = self.measures.sum + value as i128;
        assert(0 <= (value as i128) * (value as i128) <= MAX_AMOUNT * MAX_AMOUNT) by (nonlinear_arith)
            requires
                -MAX_AMOUNT <= value <= MAX_AMOUNT,
        ;
        self.measures.sum_of_squares = self.measures.sum_of_squares + (value as i128) * (
        value as i128);
        if self.price_points.len() == 1 {
            self.measures.min = value;
            self.measures.max = value;
        } else {
            if value < self.measures.min {
                self.measures.min = value;
            }
            if value > self.measures.max {
                self.measures.max = value;
            }
        }
        self.insert_sorted(value);
        proof {
            lemma_sorted_is_sort_of(self.sorted_values@, vals);
            assert(self.sorted_values@.to_multiset().len() == vals.to_multiset().len());
        }
        let n = self.sorted_values.len();
        let mid = n / 2;
        if n % 2 == 1 {
            self.measures.median_twice = 2 * (self.sorted_values[mid] as i128);
        } else {
            self.measures.median_twice = self.sorted_values[mid - 1] as i128
                + self.sorted_values[mid] as i128;
        }
    }

    /// Adds every point of `other`, in its order, after the points held here.
    pub fn merge(&mut self, other: &ModifierStats)
        requires
            old(self).wf(),
            other.wf(),
            old(self).points().len() + other.points().len() <= u32::MAX,
        ensures
            final(self).wf(),
            final(self).name_view() == old(self).name_view(),
            final(self).points() == old(self).points() + other.points(),
    {
        let mut i: usize = 0;
        while i < other.price_points.len()
            invariant
                self.wf(),
                other.wf(),
                i <= other.points().len(),
                self.name_view() == old(self).name_view(),
                self.points() == old(self).points() + other.points().take(i as int),
                old(self).points().len() + other.points().len() <= u32::MAX,
            decreases other.points().len() - i,
        {
            let (v, p) = other.price_points[i];
            assert(other.values()[i as int] == v);
            self.add_data_point(v, p);
            assert(other.points().take(i as int + 1) =~= other.points().take(i as int).push((v, p)));
            i = i + 1;
        }
        assert(other.points().take(i as int) =~= other.points());
    }

    /// Places `value` in the ascending copy of the values.
    fn insert_sorted(&mut self, value: i64)
        requires
            sorted_by(old(self).sorted_values@, value_leq()),
        ensures
            sorted_by(final(self).sorted_values@, value_leq()),
            final(self).sorted_values@.to_multiset() == old(self).sorted_values@.to_multiset().insert(
                value,
            ),
            final(self).name == old(self).name,
            final(self).total_occurrences == old(self).total_occurrences,
            final(self).price_points == old(self).price_points,
            final(self).measures == old(self).measures,
    {
        let ghost s = self.sorted_values@;
        let mut p: usize = 0;
        while p < self.sorted_values.len() && self.sorted_values[p] <= value
            invariant
                p <= self.sorted_values@.len(),
                self.sorted_values@ == s,
                forall|k: int| 0 <= k < p ==> s[k] <= value,
            decreases self.sorted_values@.len() - p,
        {
            p = p + 1;
        }
        self.sorted_values.insert(p, value);
        let ghost t = self.sorted_values@;
        assert(t =~= s.insert(p as int, value));
        assert forall|i: int, j: int| 0 <= i < j < t.len() implies #[trigger] value_leq()(
            t[i],
            t[j],
        ) by {
            if j < p {
                assert(value_leq()(s[i], s[j]));
            } else if j == p {
                assert(s[i] <= value);
            } else if i < p {
                assert(value_leq()(s[i], s[p as int]));
                assert(s[p as int] > value);
                assert(value_leq()(s[p as int], s[j - 1]));
            } else if i == p {
                assert(s[p as int] > value);
                assert(value_leq()(s[p as int], s[j - 1]));
            } else {
                assert(value_leq()(s[i - 1], s[j - 1]));
            }
        }
    }
}

/// The median does not depend on the order in which values arrive: for any
/// ascending list holding exactly the observed values, the recorded median is that
/// list's median.
pub proof fn lemma_median_matches_sorted_oracle(stats: &ModifierStats, oracle: Seq<i64>)
    requires
        stats.wf(),
        sorted_by(oracle, value_leq()),
        oracle.to_multiset() == stats.values().to_multiset(),
    ensures
        stats.measures_view().median_twice == median_twice_of_sorted(oracle),
{
    lemma_sorted_is_sort_of(oracle, stats.values());
}

} // verus!
