//! Summaries of a `StatAnalyzer`: attribute correlations, common modifier pairs,
//! requirement statistics, and a report combining them. Ratios are exact: a
//! correlation strength is a count over the number of items analysed, an average
//! a total over a count.
use vstd::prelude::*;
use vstd::seq_lib::*;
use crate::stat_analyzer::{
    distribution_in, modifier_counts, sample_count, sample_total, total_of, ModifierSamples,
    Observation, PairCount, StatAnalyzer, StatRequirementType,
};
use crate::stat_requirements::CoreAttribute;

verus! {

broadcast use group_to_multiset_ensures;

/// How attribute `attribute` is seen beside modifiers: `occurrence_count` samples
/// whose thresholds add up to `threshold_sum` (the average threshold is their
/// quotient), and for each modifier its number of samples of the attribute (its
/// correlation strength over the items analysed).
#[derive(Debug, Clone, PartialEq, Eq)]
pub struct AttributeCorrelation {
    pub attribute: CoreAttribute,
    pub occurrence_count: u128,
    pub threshold_sum: u128,
    pub modifier_correlations: Vec<(String, usize)>,
}

pub open spec fn counts_view(v: Seq<(String, usize)>) -> Seq<(Seq<char>, nat)> {
    v.map_values(|p: (String, usize)| (p.0@, p.1 as nat))
}

/// `c` sums up attribute `a` over the records.
pub open spec fn describes_attribute(c: AttributeCorrelation, recs: Seq<ModifierSamples>, a: CoreAttribute) -> bool {
    &&& c.attribute == a
    &&& c.occurrence_count == sample_count(recs, a)
    &&& c.threshold_sum == sample_total(recs, a)
    &&& counts_view(c.modifier_correlations@) == modifier_counts(recs, a)
}

/// Whether a sum over the records would not fit in a `u128`.
pub open spec fn attribute_overflows(recs: Seq<ModifierSamples>, a: CoreAttribute) -> bool {
    sample_count(recs, a) > u128::MAX || sample_total(recs, a) > u128::MAX
}

/// The attributes seen beside some modifier, in declaration order.
pub open spec fn seen_attributes(recs: Seq<ModifierSamples>) -> Seq<CoreAttribute> {
    (if sample_count(recs, CoreAttribute::Strength) > 0 { seq![CoreAttribute::Strength] } else { Seq::empty() })
    + (if sample_count(recs, CoreAttribute::Dexterity) > 0 { seq![CoreAttribute::Dexterity] } else { Seq::empty() })
    + (if sample_count(recs, CoreAttribute::Intelligence) > 0 { seq![CoreAttribute::Intelligence] } else { Seq::empty() })
}

pub open spec fn pair_view(p: (String, String, u64)) -> (Seq<char>, Seq<char>, nat) {
    (p.0@, p.1@, p.2 as nat)
}

/// Whether `count` out of `total` items reach a strength of `minimum` thousandths;
/// with no items there is no strength to reach.
pub open spec fn reaches(count: nat, total: nat, minimum: nat) -> bool {
    total > 0 && count * 1000 >= minimum * total
}

/// The pair entries whose strength reaches `minimum` thousandths, in table order.
pub open spec fn qualifying_pairs(ps: Seq<PairCount>, total: nat, minimum: nat) -> Seq<(Seq<char>, Seq<char>, nat)>
    decreases ps.len(),
{
    if ps.len() == 0 {
        Seq::empty()
    } else if reaches(ps.last().spec_count(), total, minimum) {
        qualifying_pairs(ps.drop_last(), total, minimum).push(
            (ps.last().spec_first(), ps.last().spec_second(), ps.last().spec_count()),
        )
    } else {
        qualifying_pairs(ps.drop_last(), total, minimum)
    }
}

/// `v` holds, in declaration order, one summary per attribute seen beside a modifier.
pub open spec fn correlations_describe(v: Seq<AttributeCorrelation>, recs: Seq<ModifierSamples>) -> bool {
    &&& v.len() == seen_attributes(recs).len()
    &&& forall|i: int| 0 <= i < v.len() ==> describes_attribute(#[trigger] v[i], recs, seen_attributes(recs)[i])
}

/// Where a pair of count `c` goes in a list ordered strongest first: after every
/// pair of count `c` or more.
pub open spec fn insert_position(r: Seq<(Seq<char>, Seq<char>, nat)>, c: nat) -> nat
    decreases r.len(),
{
    if r.len() == 0 {
        0
    } else if r[0].2 < c {
        0
    } else {
        1 + insert_position(r.drop_first(), c)
    }
}

/// The pairs ordered strongest first, pairs of equal count in their order in `q`.
pub open spec fn ranked_pairs(q: Seq<(Seq<char>, Seq<char>, nat)>) -> Seq<(Seq<char>, Seq<char>, nat)>
    decreases q.len(),
{
    if q.len() == 0 {
        Seq::empty()
    } else {
        let r = ranked_pairs(q.drop_last());
        r.insert(insert_position(r, q.last().2) as int, q.last())
    }
}

proof fn lemma_insert_position_at(r: Seq<(Seq<char>, Seq<char>, nat)>, p: int, c: nat)
    requires
        0 <= p <= r.len(),
        forall|q: int| 0 <= q < p ==> (#[trigger] r[q]).2 >= c,
        p < r.len() ==> r[p].2 < c,
    ensures
        insert_position(r, c) == p,
    decreases p,
{
    if p > 0 {
        let t = r.drop_first();
        assert forall|q: int| 0 <= q < p - 1 implies (#[trigger] t[q]).2 >= c by {
            assert(t[q] == r[q + 1]);
        }
        if p < r.len() {
            assert(t[p - 1] == r[p]);
        }
        assert(r[0].2 >= c);
        lemma_insert_position_at(t, p - 1, c);
    }
}

/// `r` lists the qualifying pairs, strongest first, pairs of equal count in table
/// order.
pub open spec fn pairs_describe(r: Seq<(String, String, u64)>, ps: Seq<PairCount>, total: nat, minimum: nat) -> bool {
    &&& r.map_values(|p: (String, String, u64)| pair_view(p)).to_multiset()
        == qualifying_pairs(ps, total, minimum).to_multiset()
    &&& forall|i: int, j: int| 0 <= i < j < r.len() ==> #[trigger] r[i].2 >= #[trigger] r[j].2
    &&& r.map_values(|p: (String, String, u64)| pair_view(p)) == ranked_pairs(qualifying_pairs(ps, total, minimum))
}

/// The sample count and the totals of each threshold slot of one requirement shape;
/// the averages are the totals over the count.
#[derive(Debug, Clone, Copy, PartialEq, Eq)]
pub struct RequirementSummary {
    pub shape: StatRequirementType,
    pub count: usize,
    pub first_total: u128,
    pub second_total: u128,
}

pub open spec fn first_total(s: Seq<(u32, u32)>) -> nat
    decreases s.len(),
{
    if s.len() == 0 {
        0
    } else {
        first_total(s.drop_last()) + s.last().0 as nat
    }
}

pub open spec fn second_total(s: Seq<(u32, u32)>) -> nat
    decreases s.len(),
{
    if s.len() == 0 {
        0
    } else {
        second_total(s.drop_last()) + s.last().1 as nat
    }
}

/// The canonical requirement shapes in report order.
pub open spec fn report_shapes() -> Seq<StatRequirementType> {
    seq![
        StatRequirementType::Single(CoreAttribute::Strength),
        StatRequirementType::Single(CoreAttribute::Dexterity),
        StatRequirementType::Single(CoreAttribute::Intelligence),
        StatRequirementType::Dual(CoreAttribute::Dexterity, CoreAttribute::Intelligence),
        StatRequirementType::Dual(CoreAttribute::Dexterity, CoreAttribute::Strength),
        StatRequirementType::Dual(CoreAttribute::Intelligence, CoreAttribute::Strength),
    ]
}

/// The shapes that some item had, in report order.
pub open spec fn recorded_shapes(h: Seq<Observation>) -> Seq<StatRequirementType> {
    report_shapes().filter(|k: StatRequirementType| distribution_in(h, k).len() > 0)
}

pub open spec fn summarizes(s: RequirementSummary, h: Seq<Observation>, k: StatRequirementType) -> bool {
    &&& s.shape == k
    &&& s.count == distribution_in(h, k).len()
    &&& s.first_total == first_total(distribution_in(h, k))
    &&& s.second_total == second_total(distribution_in(h, k))
}

pub open spec fn statistics_describe(v: Seq<RequirementSummary>, h: Seq<Observation>) -> bool {
    &&& v.len() == recorded_shapes(h).len()
    &&& forall|i: int| 0 <= i < v.len() ==> summarizes(#[trigger] v[i], h, recorded_shapes(h)[i])
}

/// An average rounded to the nearest integer, halves rounding up.
pub open spec fn rounded_average(sum: nat, count: nat) -> nat {
    if count == 0 {
        0
    } else {
        sum / count + if 2 * (sum % count) >= count { 1nat } else { 0nat }
    }
}

/// The greatest occurrence count among the summaries; `0` when there are none.
pub open spec fn max_occurrence(v: Seq<AttributeCorrelation>) -> nat
    decreases v.len(),
{
    if v.len() == 0 {
        0
    } else if v.last().occurrence_count > max_occurrence(v.drop_last()) {
        v.last().occurrence_count as nat
    } else {
        max_occurrence(v.drop_last())
    }
}

/// The attribute of the first summary with the greatest occurrence count.
pub open spec fn strongest_of(v: Seq<AttributeCorrelation>) -> Option<CoreAttribute>
    decreases v.len(),
{
    if v.len() == 0 {
        None
    } else if v.len() == 1 || v.last().occurrence_count > max_occurrence(v.drop_last()) {
        if v.len() == 1 { Some(v[0].attribute) } else { Some(v.last().attribute) }
    } else {
        strongest_of(v.drop_last())
    }
}

/// The greatest rounded average threshold among the summaries.
pub open spec fn max_rounded_threshold(v: Seq<AttributeCorrelation>) -> Option<nat>
    decreases v.len(),
{
    if v.len() == 0 {
        None
    } else {
        let r = rounded_average(v.last().threshold_sum as nat, v.last().occurrence_count as nat);
        match max_rounded_threshold(v.drop_last()) {
            Some(m) => Some(if r > m { r } else { m }),
            None => Some(r),
        }
    }
}

/// The report over everything a `StatAnalyzer` observed.
#[derive(Debug, Clone)]
pub struct AttributeReport {
    pub total_items_analyzed: u64,
    pub attribute_correlations: Vec<AttributeCorrelation>,
    pub common_modifier_pairs: Vec<(String, String, u64)>,
    pub requirement_statistics: RequirementStatistics,
    pub strongest_attribute: Option<CoreAttribute>,
    pub most_common_threshold: Option<u128>,
}

/// Strength, in thousandths, that a modifier pair needs to appear in a report.
pub const REPORT_PAIR_MINIMUM: u64 = 100;

fn rounded(sum: u128, count: u128) -> (r: u128)
    requires
        count > 0,
    ensures
        r == rounded_average(sum as nat, count as nat),
{
    let q = sum / count;
    let rem = sum % count;
    assert(q <= sum) by (nonlinear_arith)
        requires
            q == sum / count,
            count > 0,
    ;
    if q == u128::MAX {
        assert(count == 1) by (nonlinear_arith)
            requires
                q == sum / count,
                count > 0,
                q == u128::MAX,
                sum <= u128::MAX,
        ;
        assert(rem == 0) by (nonlinear_arith)
            requires
                count == 1,
                rem == sum % count,
        ;
    }
    if rem >= count - rem {
        q + 1
    } else {
        q
    }
}

/// Per requirement shape that occurred, its count and threshold totals.
#[derive(Debug, Clone, PartialEq, Eq)]
pub struct RequirementStatistics {
    pub entries: Vec<RequirementSummary>,
}

fn sum_samples(v: &Vec<u32>) -> (r: u128)
    ensures
        r == total_of(v@),
{
    let mut i: usize = 0;
    let mut r: u128 = 0;
    while i < v.len()
        invariant
            i <= v@.len(),
            r == total_of(v@.take(i as int)),
            r <= i * (u32::MAX as nat),
        decreases v@.len() - i,
    {
        assert(v@.take(i as int + 1).drop_last() =~= v@.take(i as int));
        assert(r + v@[i as int] <= (i + 1) * (u32::MAX as nat)) by (nonlinear_arith)
            requires
                r <= i * (u32::MAX as nat),
                v@[i as int] <= u32::MAX,
        ;
        assert((i + 1) * (u32::MAX as nat) <= 0x1_0000_0000_0000_0000 * 0x1_0000_0000) by (nonlinear_arith)
            requires
                i < 0x1_0000_0000_0000_0000,
        ;
        r = r + v[i] as u128;
        i = i + 1;
    }
    assert(v@.take(i as int) =~= v@);
    r
}

fn sum_slots(v: &Vec<(u32, u32)>) -> (r: (u128, u128))
    ensures
        r.0 == first_total(v@),
        r.1 == second_total(v@),
{
    let mut i: usize = 0;
    let mut a: u128 = 0;
    let mut b: u128 = 0;
    while i < v.len()
        invariant
            i <= v@.len(),
            a == first_total(v@.take(i as int)),
            b == second_total(v@.take(i as int)),
            a <= i * (u32::MAX as nat),
            b <= i * (u32::MAX as nat),
        decreases v@.len() - i,
    {
        assert(v@.take(i as int + 1).drop_last() =~= v@.take(i as int));
        assert(a + v@[i as int].0 <= (i + 1) * (u32::MAX as nat)) by (nonlinear_arith)
            requires
                a <= i * (u32::MAX as nat),
                v@[i as int].0 <= u32::MAX,
        ;
        assert(b + v@[i as int].1 <= (i + 1) * (u32::MAX as nat)) by (nonlinear_arith)
            requires
                b <= i * (u32::MAX as nat),
                v@[i as int].1 <= u32::MAX,
        ;
        assert((i + 1) * (u32::MAX as nat) <= 0x1_0000_0000_0000_0000 * 0x1_0000_0000) by (nonlinear_arith)
            requires
                i < 0x1_0000_0000_0000_0000,
        ;
        a = a + v[i].0 as u128;
        b = b + v[i].1 as u128;
        i = i + 1;
    }
    assert(v@.take(i as int) =~= v@);
    (a, b)
}

impl StatAnalyzer {
    /// How attribute `a` is seen beside modifiers; `None` when a sum does not fit
    /// in a `u128`.
    pub fn correlation_for(&self, a: CoreAttribute) -> (r: Option<AttributeCorrelation>)
        requires
            self.wf(),
        ensures
            r is None <==> attribute_overflows(self.records(), a),
            r matches Some(c) ==> describes_attribute(c, self.records(), a),
    {
        let recs = self.modifier_records();
        let mut count: u128 = 0;
        let mut total: u128 = 0;
        let mut mods: Vec<(String, usize)> = Vec::new();
        let mut i: usize = 0;
        while i < recs.len()
            invariant
                i <= recs@.len(),
                recs@ == self.records(),
                count == sample_count(recs@.take(i as int), a),
                total == sample_total(recs@.take(i as int), a),
                counts_view(mods@) == modifier_counts(recs@.take(i as int), a),
            decreases recs@.len() - i,
        {
            let ghost t = recs@.take(i as int + 1);
            assert(t.drop_last() =~= recs@.take(i as int));
            assert(t.last() == recs@[i as int]);
            let samples = recs[i].samples(a);
            let n = samples.len();
            let s = sum_samples(samples);
            if count > u128::MAX - n as u128 || total > u128::MAX - s {
                proof {
                    lemma_prefix_totals(recs@, i as int + 1, a);
                }
                return None;
            }
            count = count + n as u128;
            total = total + s;
            if n > 0 {
                let ghost before = mods@;
                mods.push((recs[i].name().clone(), n));
                assert(counts_view(mods@) =~= counts_view(before).push((recs@[i as int].spec_name(), n as nat)));
            }
            i = i + 1;
        }
        assert(recs@.take(i as int) =~= recs@);
        Some(AttributeCorrelation { attribute: a, occurrence_count: count, threshold_sum: total, modifier_correlations: mods })
    }

    /// For each attribute seen beside some modifier, in declaration order, how it is
    /// seen; `None` when a sum does not fit in a `u128`.
    pub fn analyze_attribute_correlations(&self) -> (r: Option<Vec<AttributeCorrelation>>)
        requires
            self.wf(),
        ensures
            r is None <==> (attribute_overflows(self.records(), CoreAttribute::Strength)
                || attribute_overflows(self.records(), CoreAttribute::Dexterity)
                || attribute_overflows(self.records(), CoreAttribute::Intelligence)),
            r matches Some(v) ==> correlations_describe(v@, self.records()),
    {
        let s = match self.correlation_for(CoreAttribute::Strength) {
            Some(c) => c,
            None => {
                return None;
            },
        };
        let d = match self.correlation_for(CoreAttribute::Dexterity) {
            Some(c) => c,
            None => {
                return None;
            },
        };
        let n = match self.correlation_for(CoreAttribute::Intelligence) {
            Some(c) => c,
            None => {
                return None;
            },
        };
        let ghost recs = self.records();
        let mut v: Vec<AttributeCorrelation> = Vec::new();
        let ghost e: Seq<CoreAttribute> = Seq::empty();
        if s.occurrence_count > 0 {
            v.push(s);
        }
        let ghost e1 = if sample_count(recs, CoreAttribute::Strength) > 0 { seq![CoreAttribute::Strength] } else { e };
        assert(v@.len() == e1.len());
        if d.occurrence_count > 0 {
            v.push(d);
        }
        let ghost e2 = e1 + if sample_count(recs, CoreAttribute::Dexterity) > 0 { seq![CoreAttribute::Dexterity] } else { e };
        assert(v@.len() == e2.len());
        if n.occurrence_count > 0 {
            v.push(n);
        }
        let ghost e3 = e2 + if sample_count(recs, CoreAttribute::Intelligence) > 0 { seq![CoreAttribute::Intelligence] } else { e };
        assert(e3 =~= seen_attributes(recs));
        Some(v)
    }

    /// Ordered pairs of modifiers whose strength, their count over the items
    /// analysed, reaches `minimum_correlation` thousandths; strongest first, pairs of
    /// equal count in table order. Both orders of a pair are listed.
    pub fn get_common_modifier_pairs(&self, minimum_correlation: u64) -> (r: Vec<(String, String, u64)>)
        requires
            self.wf(),
        ensures
            pairs_describe(r@, self.pair_entries(), self.history().len(), minimum_correlation as nat),
    {
        let entries = self.correlation_entries();
        let total = self.total_items();
        let mut r: Vec<(String, String, u64)> = Vec::new();
        let mut k: usize = 0;
        while k < entries.len()
            invariant
                k <= entries@.len(),
                entries@ == self.pair_entries(),
                total == self.history().len(),
                r@.map_values(|p: (String, String, u64)| pair_view(p)).to_multiset()
                    == qualifying_pairs(entries@.take(k as int), total as nat, minimum_correlation as nat).to_multiset(),
                r@.map_values(|p: (String, String, u64)| pair_view(p))
                    == ranked_pairs(qualifying_pairs(entries@.take(k as int), total as nat, minimum_correlation as nat)),
                forall|i: int, j: int| 0 <= i < j < r@.len() ==> #[trigger] r@[i].2 >= #[trigger] r@[j].2,
            decreases entries@.len() - k,
        {
            let ghost t = entries@.take(k as int + 1);
            assert(t.drop_last() =~= entries@.take(k as int));
            assert(t.last() == entries@[k as int]);
            let e = &entries[k];
            let c = e.count();
            assert((minimum_correlation as u128) * (total as u128) <= u64::MAX * u64::MAX) by (nonlinear_arith)
                requires
                    minimum_correlation <= u64::MAX,
                    total <= u64::MAX,
            ;
            if total > 0 && (c as u128) * 1000 >= (minimum_correlation as u128) * (total as u128) {
                let item = (e.first().clone(), e.second().clone(), c);
                let mut p: usize = 0;
                while p < r.len() && r[p].2 >= c
                    invariant
                        p <= r@.len(),
                        forall|q: int| 0 <= q < p ==> r@[q].2 >= c,
                    decreases r@.len() - p,
                {
                    p = p + 1;
                }
                let ghost before = r@;
                r.insert(p, item);
                proof {
                    assert(r@ =~= before.insert(p as int, item));
                    let f = |q: (String, String, u64)| pair_view(q);
                    assert(r@.map_values(f) =~= before.map_values(f).insert(p as int, pair_view(item)));
                    let bv = before.map_values(f);
                    assert forall|q: int| 0 <= q < p implies (#[trigger] bv[q]).2 >= c as nat by {
                        assert(bv[q] == pair_view(before[q]));
                    }
                    if p < before.len() {
                        assert(bv[p as int] == pair_view(before[p as int]));
                    }
                    lemma_insert_position_at(bv, p as int, c as nat);
                    let qk = qualifying_pairs(entries@.take(k as int), total as nat, minimum_correlation as nat);
                    let pv = pair_view(item);
                    assert(pv == (entries@[k as int].spec_first(), entries@[k as int].spec_second(), entries@[k as int].spec_count()));
                    assert(qualifying_pairs(t, total as nat, minimum_correlation as nat) == qk.push(pv));
                    assert(qk.push(pv).drop_last() =~= qk);
                    assert(qk.push(pv).last() == pv);
                    assert(ranked_pairs(qk.push(pv)) == ranked_pairs(qk).insert(insert_position(ranked_pairs(qk), c as nat) as int, pv));
                    assert forall|i: int, j: int| 0 <= i < j < r@.len() implies #[trigger] r@[i].2 >= #[trigger] r@[j].2 by {
                        if j < p {
                        } else if j == p {
                        } else if i < p {
                            assert(r@[j] == before[j - 1]);
                            if p < before.len() {
                                assert(before[p as int].2 < c);
                                assert(before[p as int].2 >= before[j - 1].2 || p == j - 1);
                            }
                        } else if i == p {
                            assert(r@[j] == before[j - 1]);
                            assert(before[p as int].2 < c);
                            assert(before[p as int].2 >= before[j - 1].2 || p == j - 1);
                        } else {
                            assert(r@[i] == before[i - 1] && r@[j] == before[j - 1]);
                        }
                    }
                }
            }
            k = k + 1;
        }
        assert(entries@.take(k as int) =~= entries@);
        r
    }

    /// For each requirement shape that occurred, in report order, its count and
    /// threshold totals.
    pub fn get_requirement_statistics(&self) -> (r: RequirementStatistics)
        requires
            self.wf(),
        ensures
            statistics_describe(r.entries@, self.history()),
    {
        let shapes: [StatRequirementType; 6] = [
            StatRequirementType::Single(CoreAttribute::Strength),
            StatRequirementType::Single(CoreAttribute::Dexterity),
            StatRequirementType::Single(CoreAttribute::Intelligence),
            StatRequirementType::Dual(CoreAttribute::Dexterity, CoreAttribute::Intelligence),
            StatRequirementType::Dual(CoreAttribute::Dexterity, CoreAttribute::Strength),
            StatRequirementType::Dual(CoreAttribute::Intelligence, CoreAttribute::Strength),
        ];
        assert(shapes@ =~= report_shapes());
        let ghost h = self.history();
        let ghost keep = |k: StatRequirementType| distribution_in(h, k).len() > 0;
        let mut entries: Vec<RequirementSummary> = Vec::new();
        let mut i: usize = 0;
        while i < 6
            invariant
                i <= 6,
                shapes@ == report_shapes(),
                h == self.history(),
                self.wf(),
                keep == (|k: StatRequirementType| distribution_in(h, k).len() > 0),
                entries@.len() == report_shapes().take(i as int).filter(keep).len(),
                forall|j: int| 0 <= j < entries@.len() ==> summarizes(
                    #[trigger] entries@[j],
                    h,
                    report_shapes().take(i as int).filter(keep)[j],
                ),
            decreases 6 - i,
        {
            let k = shapes[i];
            let ghost prev = report_shapes().take(i as int).filter(keep);
            proof {
                reveal(Seq::filter);
                assert(report_shapes().take(i as int + 1).drop_last() =~= report_shapes().take(i as int));
                assert(report_shapes().take(i as int + 1).last() == k);
            }
            let dist = self.requirement_distribution(k);
            if dist.len() > 0 {
                let (a, b) = sum_slots(dist);
                entries.push(RequirementSummary { shape: k, count: dist.len(), first_total: a, second_total: b });
                assert(report_shapes().take(i as int + 1).filter(keep) =~= prev.push(k));
            } else {
                assert(report_shapes().take(i as int + 1).filter(keep) =~= prev);
            }
            i = i + 1;
        }
        assert(report_shapes().take(6) =~= report_shapes());
        RequirementStatistics { entries }
    }
}

impl StatAnalyzer {
    /// Everything at once: the item total, the attribute correlations, the pairs
    /// reaching a tenth of the items, the requirement statistics, the attribute seen
    /// most often (the first in declaration order among equals) and the greatest
    /// rounded average threshold. `None` when a sum does not fit in a `u128`.
    pub fn generate_attribute_report(&self) -> (r: Option<AttributeReport>)
        requires
            self.wf(),
        ensures
            r is None <==> (attribute_overflows(self.records(), CoreAttribute::Strength)
                || attribute_overflows(self.records(), CoreAttribute::Dexterity)
                || attribute_overflows(self.records(), CoreAttribute::Intelligence)),
            r matches Some(rep) ==> {
                &&& rep.total_items_analyzed == self.history().len()
                &&& correlations_describe(rep.attribute_correlations@, self.records())
                &&& pairs_describe(rep.common_modifier_pairs@, self.pair_entries(), self.history().len(), REPORT_PAIR_MINIMUM as nat)
                &&& statistics_describe(rep.requirement_statistics.entries@, self.history())
                &&& rep.strongest_attribute == strongest_of(rep.attribute_correlations@)
                &&& (rep.most_common_threshold is None <==> max_rounded_threshold(rep.attribute_correlations@) is None)
                &&& (rep.most_common_threshold matches Some(x) ==> max_rounded_threshold(rep.attribute_correlations@) == Some(x as nat))
            },
    {
        let correlations = match self.analyze_attribute_correlations() {
            Some(v) => v,
            None => {
                return None;
            },
        };
        let mut strongest: Option<CoreAttribute> = None;
        let mut best: u128 = 0;
        let mut threshold: Option<u128> = None;
        let mut i: usize = 0;
        while i < correlations.len()
            invariant
                i <= correlations@.len(),
                best == max_occurrence(correlations@.take(i as int)),
                strongest == strongest_of(correlations@.take(i as int)),
                threshold is None <==> max_rounded_threshold(correlations@.take(i as int)) is None,
                threshold matches Some(x) ==> max_rounded_threshold(correlations@.take(i as int)) == Some(x as nat),
                correlations_describe(correlations@, self.records()),
            decreases correlations@.len() - i,
        {
            let ghost t = correlations@.take(i as int + 1);
            assert(t.drop_last() =~= correlations@.take(i as int));
            assert(t.last() == correlations@[i as int]);
            let c = &correlations[i];
            if i == 0 || c.occurrence_count > best {
                strongest = Some(c.attribute);
            }
            if c.occurrence_count > best {
                best = c.occurrence_count;
            }
            if c.occurrence_count > 0 {
                let r = rounded(c.threshold_sum, c.occurrence_count);
                threshold = match threshold {
                    Some(m) => Some(if r > m { r } else { m }),
                    None => Some(r),
                };
            } else {
                let r: u128 = 0;
                threshold = match threshold {
                    Some(m) => Some(if r > m { r } else { m }),
                    None => Some(r),
                };
            }
            i = i + 1;
        }
        assert(correlations@.take(i as int) =~= correlations@);
        Some(AttributeReport {
            total_items_analyzed: self.total_items(),
            attribute_correlations: correlations,
            common_modifier_pairs: self.get_common_modifier_pairs(REPORT_PAIR_MINIMUM),
            requirement_statistics: self.get_requirement_statistics(),
            strongest_attribute: strongest,
            most_common_threshold: threshold,
        })
    }
}

proof fn lemma_prefix_totals(recs: Seq<ModifierSamples>, k: int, a: CoreAttribute)
    requires
        0 <= k <= recs.len(),
    ensures
        sample_count(recs.take(k), a) <= sample_count(recs, a),
        sample_total(recs.take(k), a) <= sample_total(recs, a),
    decreases recs.len(),
{
    if k < recs.len() {
        assert(recs.drop_last().take(k) =~= recs.take(k));
        lemma_prefix_totals(recs.drop_last(), k, a);
    } else {
        assert(recs.take(k) =~= recs);
    }
}

} // verus!
