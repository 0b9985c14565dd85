//! Attribute and co-occurrence tracking over a stream of items: for each modifier,
//! the attribute thresholds seen beside it; for each pair of modifier names, how
//! many pairs of list entries carried them together; for each requirement shape,
//! the thresholds it came with.
use vstd::prelude::*;
use crate::stat_requirements::{AttributeThresholds, CoreAttribute, name_rank};
use crate::numeric::same_text;
use crate::poe_item::{thresholds_of, ItemResponse, ModInfo as ListedMod};
use crate::cleaned_item::{mod_names, CleanedItem};
pub use crate::poe_item::{ExplicitMod, ModBase, ModInfo};
use crate::item::{Item, ItemModifier};

verus! {

/// The shape of an item's attribute requirements: one attribute, or two ordered by name.
#[derive(Debug, Clone, Copy, PartialEq, Eq, Structural, Hash)]
pub enum StatRequirementType {
    Single(CoreAttribute),
    Dual(CoreAttribute, CoreAttribute),
}

/// What one item contributes: the names of its modifiers and its attribute thresholds.
pub struct Observation {
    pub names: Seq<Seq<char>>,
    pub thresholds: AttributeThresholds,
}

pub open spec fn string_views(v: Seq<String>) -> Seq<Seq<char>> {
    v.map_values(|s: String| s@)
}

/// The attributes that carry a threshold, ordered by name.
pub open spec fn required_attributes(t: AttributeThresholds) -> Seq<CoreAttribute> {
    let d = if t.dexterity is Some { seq![CoreAttribute::Dexterity] } else { Seq::empty() };
    let i = if t.intelligence is Some { seq![CoreAttribute::Intelligence] } else { Seq::empty() };
    let s = if t.strength is Some { seq![CoreAttribute::Strength] } else { Seq::empty() };
    d + i + s
}

/// The requirement shape of an item and the thresholds recorded for it: the single
/// threshold beside `0`, or the two thresholds in name order. Items requiring no
/// attribute, or all three, have none.
pub open spec fn requirement_entry(t: AttributeThresholds) -> Option<
    (StatRequirementType, (u32, u32)),
> {
    let r = required_attributes(t);
    if r.len() == 1 {
        Some((StatRequirementType::Single(r[0]), (t.spec_get(r[0]).unwrap(), 0u32)))
    } else if r.len() == 2 {
        Some(
            (
                StatRequirementType::Dual(r[0], r[1]),
                (t.spec_get(r[0]).unwrap(), t.spec_get(r[1]).unwrap()),
            ),
        )
    } else {
        None
    }
}

/// How many entries of `s` are `n`.
pub open spec fn name_count(s: Seq<Seq<char>>, n: Seq<char>) -> nat
    decreases s.len(),
{
    if s.len() == 0 {
        0
    } else {
        name_count(s.drop_last(), n) + if s.last() == n { 1nat } else { 0nat }
    }
}

/// `k` copies of `v`.
pub open spec fn copies(v: u32, k: nat) -> Seq<u32> {
    Seq::new(k, |i: int| v)
}

/// The threshold samples of attribute `a` recorded beside modifier `n` over a
/// history: each item adds its threshold once for every entry of `n` in its list.
pub open spec fn samples_in(h: Seq<Observation>, n: Seq<char>, a: CoreAttribute) -> Seq<u32>
    decreases h.len(),
{
    if h.len() == 0 {
        Seq::empty()
    } else {
        let prev = samples_in(h.drop_last(), n, a);
        let o = h.last();
        match o.thresholds.spec_get(a) {
            Some(v) => prev + copies(v, name_count(o.names, n)),
            None => prev,
        }
    }
}

/// The count of the pair `(x, y)` over a history: each item adds the number of
/// pairs of its list entries named `x` and `y`, for `x != y`.
pub open spec fn pairs_in(h: Seq<Observation>, x: Seq<char>, y: Seq<char>) -> nat
    decreases h.len(),
{
    if h.len() == 0 {
        0
    } else {
        let o = h.last();
        pairs_in(h.drop_last(), x, y) + if x != y {
            name_count(o.names, x) * name_count(o.names, y)
        } else {
            0nat
        }
    }
}

/// The sum over a history of the squared lengths of the items' modifier lists:
/// a bound on every pair count.
pub open spec fn pair_volume(h: Seq<Observation>) -> nat
    decreases h.len(),
{
    if h.len() == 0 {
        0
    } else {
        pair_volume(h.drop_last()) + h.last().names.len() * h.last().names.len()
    }
}

/// The thresholds recorded under requirement shape `k` over a history.
pub open spec fn distribution_in(h: Seq<Observation>, k: StatRequirementType) -> Seq<(u32, u32)>
    decreases h.len(),
{
    if h.len() == 0 {
        Seq::empty()
    } else {
        let prev = distribution_in(h.drop_last(), k);
        match requirement_entry(h.last().thresholds) {
            Some((key, v)) => if key == k {
                prev.push(v)
            } else {
                prev
            },
            None => prev,
        }
    }
}

pub open spec fn total_of(s: Seq<u32>) -> nat
    decreases s.len(),
{
    if s.len() == 0 {
        0
    } else {
        total_of(s.drop_last()) + s.last() as nat
    }
}

/// Threshold samples of one modifier, one list per attribute.
#[derive(Debug)]
pub struct ModifierSamples {
    name: String,
    strength: Vec<u32>,
    dexterity: Vec<u32>,
    intelligence: Vec<u32>,
}

impl ModifierSamples {
    pub closed spec fn spec_samples(&self, a: CoreAttribute) -> Seq<u32> {
        match a {
            CoreAttribute::Strength => self.strength@,
            CoreAttribute::Dexterity => self.dexterity@,
            CoreAttribute::Intelligence => self.intelligence@,
        }
    }

    pub closed spec fn spec_name(&self) -> Seq<char> {
        self.name@
    }

    pub fn name(&self) -> (r: &String)
        ensures
            r@ == self.spec_name(),
    {
        &self.name
    }

    pub fn samples(&self, a: CoreAttribute) -> (r: &Vec<u32>)
        ensures
            r@ == self.spec_samples(a),
    {
        match a {
            CoreAttribute::Strength => &self.strength,
            CoreAttribute::Dexterity => &self.dexterity,
            CoreAttribute::Intelligence => &self.intelligence,
        }
    }

    fn push(&mut self, a: CoreAttribute, v: u32)
        ensures
            final(self).spec_name() == old(self).spec_name(),
            forall|b: CoreAttribute|
                #[trigger] final(self).spec_samples(b) == if b == a {
                    old(self).spec_samples(b).push(v)
                } else {
                    old(self).spec_samples(b)
                },
    {
        match a {
            CoreAttribute::Strength => self.strength.push(v),
            CoreAttribute::Dexterity => self.dexterity.push(v),
            CoreAttribute::Intelligence => self.intelligence.push(v),
        }
    }

    fn extend(&mut self, a: CoreAttribute, more: &Vec<u32>)
        ensures
            final(self).spec_name() == old(self).spec_name(),
            forall|b: CoreAttribute|
                #[trigger] final(self).spec_samples(b) == if b == a {
                    old(self).spec_samples(b) + more@
                } else {
                    old(self).spec_samples(b)
                },
    {
        let mut i: usize = 0;
        while i < more.len()
            invariant
                i <= more@.len(),
                self.spec_name() == old(self).spec_name(),
                forall|b: CoreAttribute|
                    #[trigger] self.spec_samples(b) == if b == a {
                        old(self).spec_samples(b) + more@.take(i as int)
                    } else {
                        old(self).spec_samples(b)
                    },
            decreases more@.len() - i,
        {
            assert(more@.take(i as int + 1) =~= more@.take(i as int).push(more@[i as int]));
            self.push(a, more[i]);
            i = i + 1;
        }
        assert(more@.take(i as int) =~= more@);
    }
}

/// How many pairs of list entries, over the items, were named `first` and `second`.
#[derive(Debug)]
pub struct PairCount {
    first: String,
    second: String,
    count: u64,
}

impl PairCount {
    pub closed spec fn spec_first(&self) -> Seq<char> {
        self.first@
    }

    pub closed spec fn spec_second(&self) -> Seq<char> {
        self.second@
    }

    pub closed spec fn spec_count(&self) -> nat {
        self.count as nat
    }

    pub fn first(&self) -> (r: &String)
        ensures
            r@ == self.spec_first(),
    {
        &self.first
    }

    pub fn second(&self) -> (r: &String)
        ensures
            r@ == self.spec_second(),
    {
        &self.second
    }

    pub fn count(&self) -> (r: u64)
        ensures
            r == self.spec_count(),
    {
        self.count
    }
}

/// Samples of modifier `n` over a list of records: those of its record, if any.
pub open spec fn samples_of_records(recs: Seq<ModifierSamples>, n: Seq<char>, a: CoreAttribute) -> Seq<
    u32,
>
    decreases recs.len(),
{
    if recs.len() == 0 {
        Seq::empty()
    } else if recs.last().spec_name() == n {
        samples_of_records(recs.drop_last(), n, a) + recs.last().spec_samples(a)
    } else {
        samples_of_records(recs.drop_last(), n, a)
    }
}

/// The count of the ordered pair `(x, y)` over a list of entries.
pub open spec fn count_of_pairs(ps: Seq<PairCount>, x: Seq<char>, y: Seq<char>) -> nat
    decreases ps.len(),
{
    if ps.len() == 0 {
        0
    } else {
        count_of_pairs(ps.drop_last(), x, y) + if ps.last().spec_first() == x
            && ps.last().spec_second() == y {
            ps.last().spec_count()
        } else {
            0
        }
    }
}

/// How many samples of attribute `a` the records hold together.
pub open spec fn sample_count(recs: Seq<ModifierSamples>, a: CoreAttribute) -> nat
    decreases recs.len(),
{
    if recs.len() == 0 {
        0
    } else {
        sample_count(recs.drop_last(), a) + recs.last().spec_samples(a).len()
    }
}

/// The sum of all samples of attribute `a` that the records hold.
pub open spec fn sample_total(recs: Seq<ModifierSamples>, a: CoreAttribute) -> nat
    decreases recs.len(),
{
    if recs.len() == 0 {
        0
    } else {
        sample_total(recs.drop_last(), a) + total_of(recs.last().spec_samples(a))
    }
}

/// Each modifier seen beside attribute `a`, with how many samples it has of it.
pub open spec fn modifier_counts(recs: Seq<ModifierSamples>, a: CoreAttribute) -> Seq<(Seq<char>, nat)>
    decreases recs.len(),
{
    if recs.len() == 0 {
        Seq::empty()
    } else if recs.last().spec_samples(a).len() > 0 {
        modifier_counts(recs.drop_last(), a).push((recs.last().spec_name(), recs.last().spec_samples(a).len()))
    } else {
        modifier_counts(recs.drop_last(), a)
    }
}

pub open spec fn names_unique(recs: Seq<ModifierSamples>) -> bool {
    forall|i: int, j: int|
        0 <= i < j < recs.len() ==> #[trigger] recs[i].spec_name() != #[trigger] recs[j].spec_name()
}

pub open spec fn pairs_unique(ps: Seq<PairCount>) -> bool {
    forall|i: int, j: int|
        0 <= i < j < ps.len() ==> (#[trigger] ps[i].spec_first() != #[trigger] ps[j].spec_first()
            || ps[i].spec_second() != ps[j].spec_second())
}

/// The thresholds recorded per requirement shape.
#[derive(Debug)]
pub struct RequirementDistributions {
    strength: Vec<(u32, u32)>,
    dexterity: Vec<(u32, u32)>,
    intelligence: Vec<(u32, u32)>,
    dexterity_intelligence: Vec<(u32, u32)>,
    dexterity_strength: Vec<(u32, u32)>,
    intelligence_strength: Vec<(u32, u32)>,
}

/// Shapes in canonical form: a pair of attributes comes in name order.
pub open spec fn is_canonical(k: StatRequirementType) -> bool {
    match k {
        StatRequirementType::Single(_) => true,
        StatRequirementType::Dual(a, b) => name_rank(a) < name_rank(b),
    }
}

impl RequirementDistributions {
    pub closed spec fn spec_get(&self, k: StatRequirementType) -> Seq<(u32, u32)> {
        match k {
            StatRequirementType::Single(CoreAttribute::Strength) => self.strength@,
            StatRequirementType::Single(CoreAttribute::Dexterity) => self.dexterity@,
            StatRequirementType::Single(CoreAttribute::Intelligence) => self.intelligence@,
            StatRequirementType::Dual(CoreAttribute::Dexterity, CoreAttribute::Intelligence) => self.dexterity_intelligence@,
            StatRequirementType::Dual(CoreAttribute::Dexterity, CoreAttribute::Strength) => self.dexterity_strength@,
            StatRequirementType::Dual(CoreAttribute::Intelligence, CoreAttribute::Strength) => self.intelligence_strength@,
            _ => Seq::empty(),
        }
    }

    fn new() -> (r: Self)
        ensures
            forall|k: StatRequirementType| #[trigger] r.spec_get(k) == Seq::<(u32, u32)>::empty(),
    {
        RequirementDistributions {
            strength: Vec::new(),
            dexterity: Vec::new(),
            intelligence: Vec::new(),
            dexterity_intelligence: Vec::new(),
            dexterity_strength: Vec::new(),
            intelligence_strength: Vec::new(),
        }
    }

    fn slot(&mut self, k: StatRequirementType) -> (r: &mut Vec<(u32, u32)>)
        requires
            is_canonical(k),
        ensures
            r@ == old(self).spec_get(k),
            forall|j: StatRequirementType| #[trigger]
                final(self).spec_get(j) == if j == k {
                    final(r)@
                } else {
                    old(self).spec_get(j)
                },
    {
        match k {
            StatRequirementType::Single(CoreAttribute::Strength) => &mut self.strength,
            StatRequirementType::Single(CoreAttribute::Dexterity) => &mut self.dexterity,
            StatRequirementType::Single(CoreAttribute::Intelligence) => &mut self.intelligence,
            StatRequirementType::Dual(CoreAttribute::Dexterity, CoreAttribute::Intelligence) => &mut self.dexterity_intelligence,
            StatRequirementType::Dual(CoreAttribute::Dexterity, CoreAttribute::Strength) => &mut self.dexterity_strength,
            _ => &mut self.intelligence_strength,
        }
    }

    fn append(&mut self, other: &RequirementDistributions)
        ensures
            forall|k: StatRequirementType| #[trigger]
                final(self).spec_get(k) == old(self).spec_get(k) + other.spec_get(k),
    {
        extend_entries(&mut self.strength, &other.strength);
        extend_entries(&mut self.dexterity, &other.dexterity);
        extend_entries(&mut self.intelligence, &other.intelligence);
        extend_entries(&mut self.dexterity_intelligence, &other.dexterity_intelligence);
        extend_entries(&mut self.dexterity_strength, &other.dexterity_strength);
        extend_entries(&mut self.intelligence_strength, &other.intelligence_strength);
        assert forall|k: StatRequirementType| #[trigger]
            self.spec_get(k) == old(self).spec_get(k) + other.spec_get(k) by {
            assert(Seq::<(u32, u32)>::empty() + Seq::<(u32, u32)>::empty() =~= Seq::<(u32, u32)>::empty());
        }
    }

    /// The thresholds recorded under shape `k`.
    pub fn get(&self, k: StatRequirementType) -> (r: &Vec<(u32, u32)>)
        requires
            is_canonical(k),
        ensures
            r@ == self.spec_get(k),
    {
        match k {
            StatRequirementType::Single(CoreAttribute::Strength) => &self.strength,
            StatRequirementType::Single(CoreAttribute::Dexterity) => &self.dexterity,
            StatRequirementType::Single(CoreAttribute::Intelligence) => &self.intelligence,
            StatRequirementType::Dual(CoreAttribute::Dexterity, CoreAttribute::Intelligence) => &self.dexterity_intelligence,
            StatRequirementType::Dual(CoreAttribute::Dexterity, CoreAttribute::Strength) => &self.dexterity_strength,
            _ => &self.intelligence_strength,
        }
    }
}

/// The requirement shape and recorded thresholds of one item.
pub fn requirement_entry_of(t: &AttributeThresholds) -> (r: Option<(StatRequirementType, (u32, u32))>)
    ensures
        r == requirement_entry(*t),
        r matches Some((k, _)) ==> is_canonical(k),
{
    let ghost ra = required_attributes(*t);
    let r = match (t.dexterity, t.intelligence, t.strength) {
        (Some(d), None, None) => Some((StatRequirementType::Single(CoreAttribute::Dexterity), (d, 0))),
        (None, Some(i), None) => Some((StatRequirementType::Single(CoreAttribute::Intelligence), (i, 0))),
        (None, None, Some(s)) => Some((StatRequirementType::Single(CoreAttribute::Strength), (s, 0))),
        (Some(d), Some(i), None) => Some(
            (StatRequirementType::Dual(CoreAttribute::Dexterity, CoreAttribute::Intelligence), (d, i)),
        ),
        (Some(d), None, Some(s)) => Some(
            (StatRequirementType::Dual(CoreAttribute::Dexterity, CoreAttribute::Strength), (d, s)),
        ),
        (None, Some(i), Some(s)) => Some(
            (StatRequirementType::Dual(CoreAttribute::Intelligence, CoreAttribute::Strength), (i, s)),
        ),
        _ => None,
    };
    proof {
        let d: Seq<CoreAttribute> = if t.dexterity is Some { seq![CoreAttribute::Dexterity] } else { Seq::empty() };
        let i: Seq<CoreAttribute> = if t.intelligence is Some { seq![CoreAttribute::Intelligence] } else { Seq::empty() };
        let s: Seq<CoreAttribute> = if t.strength is Some { seq![CoreAttribute::Strength] } else { Seq::empty() };
        assert(ra == d + i + s);
        if t.dexterity is Some && t.intelligence is Some && t.strength is Some {
            assert(ra.len() == 3);
        } else if t.dexterity is Some && t.intelligence is Some {
            assert(ra =~= seq![CoreAttribute::Dexterity, CoreAttribute::Intelligence]);
        } else if t.dexterity is Some && t.strength is Some {
            assert(ra =~= seq![CoreAttribute::Dexterity, CoreAttribute::Strength]);
        } else if t.intelligence is Some && t.strength is Some {
            assert(ra =~= seq![CoreAttribute::Intelligence, CoreAttribute::Strength]);
        } else if t.dexterity is Some {
            assert(ra =~= seq![CoreAttribute::Dexterity]);
        } else if t.intelligence is Some {
            assert(ra =~= seq![CoreAttribute::Intelligence]);
        } else if t.strength is Some {
            assert(ra =~= seq![CoreAttribute::Strength]);
        } else {
            assert(ra.len() == 0);
        }
    }
    r
}

proof fn lemma_count_update(ps: Seq<PairCount>, i: int, e: PairCount, x: Seq<char>, y: Seq<char>)
    requires
        0 <= i < ps.len(),
        e.spec_first() == ps[i].spec_first(),
        e.spec_second() == ps[i].spec_second(),
    ensures
        count_of_pairs(ps.update(i, e), x, y) + (if ps[i].spec_first() == x && ps[i].spec_second()
            == y {
            ps[i].spec_count()
        } else {
            0
        }) == count_of_pairs(ps, x, y) + (if e.spec_first() == x && e.spec_second() == y {
            e.spec_count()
        } else {
            0
        }),
    decreases ps.len(),
{
    let u = ps.update(i, e);
    if i == ps.len() - 1 {
        assert(u.drop_last() =~= ps.drop_last());
    } else {
        assert(u.drop_last() =~= ps.drop_last().update(i, e));
        lemma_count_update(ps.drop_last(), i, e, x, y);
    }
}

proof fn lemma_count_absent(ps: Seq<PairCount>, x: Seq<char>, y: Seq<char>)
    requires
        forall|k: int| 0 <= k < ps.len() ==> !(#[trigger] ps[k].spec_first() == x && ps[k].spec_second() == y),
    ensures
        count_of_pairs(ps, x, y) == 0,
    decreases ps.len(),
{
    if ps.len() > 0 {
        let t = ps.drop_last();
        assert forall|k: int| 0 <= k < t.len() implies !(#[trigger] t[k].spec_first() == x && t[k].spec_second() == y) by {
            assert(t[k] == ps[k]);
        }
        lemma_count_absent(t, x, y);
        assert(ps.last() == ps[ps.len() - 1]);
    }
}

proof fn lemma_count_at(ps: Seq<PairCount>, i: int)
    requires
        pairs_unique(ps),
        0 <= i < ps.len(),
    ensures
        count_of_pairs(ps, ps[i].spec_first(), ps[i].spec_second()) == ps[i].spec_count(),
    decreases ps.len(),
{
    let t = ps.drop_last();
    let (x, y) = (ps[i].spec_first(), ps[i].spec_second());
    if i == ps.len() - 1 {
        assert forall|k: int| 0 <= k < t.len() implies !(#[trigger] t[k].spec_first() == x && t[k].spec_second() == y) by {
            assert(t[k] == ps[k]);
        }
        lemma_count_absent(t, x, y);
    } else {
        assert(pairs_unique(t)) by {
            assert forall|a: int, b: int| 0 <= a < b < t.len() implies (#[trigger] t[a].spec_first() != #[trigger] t[b].spec_first()
                || t[a].spec_second() != t[b].spec_second()) by {
                assert(t[a] == ps[a] && t[b] == ps[b]);
            }
        }
        assert(t[i] == ps[i]);
        lemma_count_at(t, i);
        assert(ps.last() == ps[ps.len() - 1]);
    }
}

proof fn lemma_samples_update(recs: Seq<ModifierSamples>, i: int, e: ModifierSamples, n: Seq<char>, a: CoreAttribute)
    requires
        0 <= i < recs.len(),
        e.spec_name() == recs[i].spec_name(),
        n != e.spec_name(),
    ensures
        samples_of_records(recs.update(i, e), n, a) == samples_of_records(recs, n, a),
    decreases recs.len(),
{
    let u = recs.update(i, e);
    if i == recs.len() - 1 {
        assert(u.drop_last() =~= recs.drop_last());
    } else {
        assert(u.drop_last() =~= recs.drop_last().update(i, e));
        lemma_samples_update(recs.drop_last(), i, e, n, a);
    }
}

proof fn lemma_samples_absent(recs: Seq<ModifierSamples>, n: Seq<char>, a: CoreAttribute)
    requires
        forall|k: int| 0 <= k < recs.len() ==> #[trigger] recs[k].spec_name() != n,
    ensures
        samples_of_records(recs, n, a) == Seq::<u32>::empty(),
    decreases recs.len(),
{
    if recs.len() > 0 {
        let t = recs.drop_last();
        assert forall|k: int| 0 <= k < t.len() implies #[trigger] t[k].spec_name() != n by {
            assert(t[k] == recs[k]);
        }
        lemma_samples_absent(t, n, a);
        assert(recs.last() == recs[recs.len() - 1]);
    }
}

proof fn lemma_samples_at(recs: Seq<ModifierSamples>, i: int, a: CoreAttribute)
    requires
        names_unique(recs),
        0 <= i < recs.len(),
    ensures
        samples_of_records(recs, recs[i].spec_name(), a) == recs[i].spec_samples(a),
    decreases recs.len(),
{
    let t = recs.drop_last();
    let n = recs[i].spec_name();
    if i == recs.len() - 1 {
        assert forall|k: int| 0 <= k < t.len() implies #[trigger] t[k].spec_name() != n by {
            assert(t[k] == recs[k]);
        }
        lemma_samples_absent(t, n, a);
        assert(Seq::<u32>::empty() + recs[i].spec_samples(a) =~= recs[i].spec_samples(a));
    } else {
        assert(names_unique(t)) by {
            assert forall|x: int, y: int| 0 <= x < y < t.len() implies #[trigger] t[x].spec_name() != #[trigger] t[y].spec_name() by {
                assert(t[x] == recs[x] && t[y] == recs[y]);
            }
        }
        assert(t[i] == recs[i]);
        lemma_samples_at(t, i, a);
        assert(recs.last() == recs[recs.len() - 1]);
    }
}

proof fn lemma_samples_concat(xs: Seq<Observation>, ys: Seq<Observation>, n: Seq<char>, a: CoreAttribute)
    ensures
        samples_in(xs + ys, n, a) == samples_in(xs, n, a) + samples_in(ys, n, a),
    decreases ys.len(),
{
    if ys.len() == 0 {
        assert(xs + ys =~= xs);
        assert(samples_in(xs, n, a) + Seq::<u32>::empty() =~= samples_in(xs, n, a));
    } else {
        assert((xs + ys).drop_last() =~= xs + ys.drop_last());
        lemma_samples_concat(xs, ys.drop_last(), n, a);
        let o = ys.last();
        if let Some(v) = o.thresholds.spec_get(a) {
            let c = copies(v, name_count(o.names, n));
            assert((samples_in(xs, n, a) + samples_in(ys.drop_last(), n, a)) + c
                =~= samples_in(xs, n, a) + (samples_in(ys.drop_last(), n, a) + c));
        }
    }
}

proof fn lemma_pairs_concat(xs: Seq<Observation>, ys: Seq<Observation>, x: Seq<char>, y: Seq<char>)
    ensures
        pairs_in(xs + ys, x, y) == pairs_in(xs, x, y) + pairs_in(ys, x, y),
    decreases ys.len(),
{
    if ys.len() == 0 {
        assert(xs + ys =~= xs);
    } else {
        assert((xs + ys).drop_last() =~= xs + ys.drop_last());
        lemma_pairs_concat(xs, ys.drop_last(), x, y);
    }
}

proof fn lemma_distribution_concat(xs: Seq<Observation>, ys: Seq<Observation>, k: StatRequirementType)
    ensures
        distribution_in(xs + ys, k) == distribution_in(xs, k) + distribution_in(ys, k),
    decreases ys.len(),
{
    if ys.len() == 0 {
        assert(xs + ys =~= xs);
        assert(distribution_in(xs, k) + Seq::<(u32, u32)>::empty() =~= distribution_in(xs, k));
    } else {
        assert((xs + ys).drop_last() =~= xs + ys.drop_last());
        lemma_distribution_concat(xs, ys.drop_last(), k);
        match requirement_entry(ys.last().thresholds) {
            Some((key, v)) => {
                assert((distribution_in(xs, k) + distribution_in(ys.drop_last(), k)).push(v)
                    =~= distribution_in(xs, k) + distribution_in(ys.drop_last(), k).push(v));
            },
            None => {},
        }
    }
}

proof fn lemma_pairs_symmetric(h: Seq<Observation>, x: Seq<char>, y: Seq<char>)
    ensures
        pairs_in(h, x, y) == pairs_in(h, y, x),
    decreases h.len(),
{
    if h.len() > 0 {
        lemma_pairs_symmetric(h.drop_last(), x, y);
    }
}

proof fn lemma_count_prefix(ps: Seq<PairCount>, k: int, x: Seq<char>, y: Seq<char>)
    requires
        0 <= k <= ps.len(),
    ensures
        count_of_pairs(ps.take(k), x, y) <= count_of_pairs(ps, x, y),
    decreases ps.len(),
{
    if k < ps.len() {
        assert(ps.drop_last().take(k) =~= ps.take(k));
        lemma_count_prefix(ps.drop_last(), k, x, y);
    } else {
        assert(ps.take(k) =~= ps);
    }
}

fn extend_entries(v: &mut Vec<(u32, u32)>, more: &Vec<(u32, u32)>)
    ensures
        final(v)@ == old(v)@ + more@,
{
    let mut i: usize = 0;
    while i < more.len()
        invariant
            i <= more@.len(),
            v@ == old(v)@ + more@.take(i as int),
        decreases more@.len() - i,
    {
        assert(more@.take(i as int + 1) =~= more@.take(i as int).push(more@[i as int]));
        v.push(more[i]);
        i = i + 1;
    }
    assert(more@.take(i as int) =~= more@);
}

proof fn lemma_name_count_step(s: Seq<Seq<char>>, j: int)
    requires
        0 <= j < s.len(),
    ensures
        forall|n: Seq<char>| #[trigger] name_count(s.take(j + 1), n) == name_count(s.take(j), n) + if s[j] == n {
            1nat
        } else {
            0nat
        },
{
    assert(s.take(j + 1).drop_last() =~= s.take(j));
    assert(s.take(j + 1).last() == s[j]);
}

proof fn lemma_name_count_prefix(s: Seq<Seq<char>>, k: int, n: Seq<char>)
    requires
        0 <= k <= s.len(),
    ensures
        name_count(s.take(k), n) <= name_count(s, n),
    decreases s.len(),
{
    if k < s.len() {
        assert(s.drop_last().take(k) =~= s.take(k));
        lemma_name_count_prefix(s.drop_last(), k, n);
    } else {
        assert(s.take(k) =~= s);
    }
}

proof fn lemma_name_counts_within_length(s: Seq<Seq<char>>, x: Seq<char>, y: Seq<char>)
    requires
        x != y,
    ensures
        name_count(s, x) + name_count(s, y) <= s.len(),
        name_count(s, x) * name_count(s, y) <= s.len() * s.len(),
    decreases s.len(),
{
    if s.len() > 0 {
        lemma_name_counts_within_length(s.drop_last(), x, y);
    }
    let (a, b, l) = (name_count(s, x), name_count(s, y), s.len());
    assert(a * b <= l * l) by (nonlinear_arith)
        requires
            a + b <= l,
    ;
}

proof fn lemma_pairs_within_volume(h: Seq<Observation>, x: Seq<char>, y: Seq<char>)
    ensures
        pairs_in(h, x, y) <= pair_volume(h),
    decreases h.len(),
{
    if h.len() > 0 {
        lemma_pairs_within_volume(h.drop_last(), x, y);
        if x != y {
            lemma_name_counts_within_length(h.last().names, x, y);
        }
    }
}

proof fn lemma_volume_concat(xs: Seq<Observation>, ys: Seq<Observation>)
    ensures
        pair_volume(xs + ys) == pair_volume(xs) + pair_volume(ys),
    decreases ys.len(),
{
    if ys.len() == 0 {
        assert(xs + ys =~= xs);
    } else {
        assert((xs + ys).drop_last() =~= xs + ys.drop_last());
        lemma_volume_concat(xs, ys.drop_last());
    }
}

pub open spec fn listed_mod_names(mods: Seq<ListedMod>) -> Seq<Seq<char>> {
    mods.map_values(|m: ListedMod| m.base.name@)
}

fn listed_names(mods: &Vec<ListedMod>) -> (r: Vec<String>)
    ensures
        string_views(r@) == listed_mod_names(mods@),
        r@.len() == mods@.len(),
{
    let mut r: Vec<String> = Vec::new();
    let mut i: usize = 0;
    while i < mods.len()
        invariant
            i <= mods@.len(),
            string_views(r@) == listed_mod_names(mods@.take(i as int)),
        decreases mods@.len() - i,
    {
        r.push(mods[i].base.name.clone());
        assert(listed_mod_names(mods@.take(i as int + 1)) =~= listed_mod_names(mods@.take(i as int)).push(mods@[i as int].base.name@));
        assert(string_views(r@) =~= listed_mod_names(mods@.take(i as int + 1)));
        i = i + 1;
    }
    assert(mods@.take(i as int) =~= mods@);
    r
}

fn cleaned_names(mods: &Vec<ExplicitMod>) -> (r: Vec<String>)
    ensures
        string_views(r@) == mod_names(mods@),
        r@.len() == mods@.len(),
{
    let mut r: Vec<String> = Vec::new();
    let mut i: usize = 0;
    while i < mods.len()
        invariant
            i <= mods@.len(),
            string_views(r@) == mod_names(mods@.take(i as int)),
        decreases mods@.len() - i,
    {
        r.push(mods[i].base.name.clone());
        assert(mod_names(mods@.take(i as int + 1)) =~= mod_names(mods@.take(i as int)).push(mods@[i as int].base.name@));
        assert(string_views(r@) =~= mod_names(mods@.take(i as int + 1)));
        i = i + 1;
    }
    assert(mods@.take(i as int) =~= mods@);
    r
}

pub open spec fn modifier_names(mods: Seq<ItemModifier>) -> Seq<Seq<char>> {
    mods.map_values(|m: ItemModifier| m.name@)
}

fn canonical_names(mods: &Vec<ItemModifier>) -> (r: Vec<String>)
    ensures
        string_views(r@) == modifier_names(mods@),
        r@.len() == mods@.len(),
{
    let mut r: Vec<String> = Vec::new();
    let mut i: usize = 0;
    while i < mods.len()
        invariant
            i <= mods@.len(),
            string_views(r@) == modifier_names(mods@.take(i as int)),
        decreases mods@.len() - i,
    {
        r.push(mods[i].name.clone());
        assert(modifier_names(mods@.take(i as int + 1)) =~= modifier_names(mods@.take(i as int)).push(mods@[i as int].name@));
        assert(string_views(r@) =~= modifier_names(mods@.take(i as int + 1)));
        i = i + 1;
    }
    assert(mods@.take(i as int) =~= mods@);
    r
}

/// Tracks, over a stream of items, which attribute thresholds each modifier appears
/// beside, how often pairs of modifiers appear together, and how attribute
/// requirements are distributed.
pub struct StatAnalyzer {
    modifier_samples: Vec<ModifierSamples>,
    modifier_correlations: Vec<PairCount>,
    total_items: u64,
    pair_volume: u64,
    requirement_distributions: RequirementDistributions,
    history: Ghost<Seq<Observation>>,
}

impl StatAnalyzer {
    /// The items observed so far, in order.
    pub closed spec fn history(&self) -> Seq<Observation> {
        self.history@
    }

    pub closed spec fn wf(&self) -> bool {
        &&& names_unique(self.modifier_samples@)
        &&& pairs_unique(self.modifier_correlations@)
        &&& self.total_items == self.history@.len()
        &&& self.pair_volume == pair_volume(self.history@)
        &&& forall|i: int| 0 <= i < self.modifier_correlations@.len() ==> (#[trigger] self.modifier_correlations@[i]).spec_count() > 0
        &&& forall|n: Seq<char>, a: CoreAttribute| #[trigger]
            samples_of_records(self.modifier_samples@, n, a) == samples_in(self.history@, n, a)
        &&& forall|x: Seq<char>, y: Seq<char>| #[trigger]
            count_of_pairs(self.modifier_correlations@, x, y) == pairs_in(self.history@, x, y)
        &&& forall|k: StatRequirementType| #[trigger]
            self.requirement_distributions.spec_get(k) == distribution_in(self.history@, k)
    }

    /// One record per modifier name seen, in order of first appearance.
    pub closed spec fn records(&self) -> Seq<ModifierSamples> {
        self.modifier_samples@
    }

    /// One entry per ordered pair of modifiers seen together.
    pub closed spec fn pair_entries(&self) -> Seq<PairCount> {
        self.modifier_correlations@
    }

    /// What the records and pair entries hold: each record's samples are those of
    /// the history for its name, and each entry's count that of its pair.
    pub proof fn lemma_tables(&self)
        requires
            self.wf(),
        ensures
            names_unique(self.records()),
            pairs_unique(self.pair_entries()),
            forall|i: int, a: CoreAttribute| 0 <= i < self.records().len() ==>
                #[trigger] self.records()[i].spec_samples(a) == samples_in(self.history(), self.records()[i].spec_name(), a),
            forall|i: int| 0 <= i < self.pair_entries().len() ==>
                #[trigger] self.pair_entries()[i].spec_count() == pairs_in(self.history(), self.pair_entries()[i].spec_first(), self.pair_entries()[i].spec_second()),
    {
        assert forall|i: int, a: CoreAttribute| 0 <= i < self.records().len() implies
            #[trigger] self.records()[i].spec_samples(a) == samples_in(self.history(), self.records()[i].spec_name(), a) by {
            lemma_samples_at(self.records(), i, a);
        }
        assert forall|i: int| 0 <= i < self.pair_entries().len() implies
            #[trigger] self.pair_entries()[i].spec_count() == pairs_in(self.history(), self.pair_entries()[i].spec_first(), self.pair_entries()[i].spec_second()) by {
            lemma_count_at(self.pair_entries(), i);
        }
    }

    pub fn modifier_records(&self) -> (r: &Vec<ModifierSamples>)
        ensures
            r@ == self.records(),
    {
        &self.modifier_samples
    }

    pub fn correlation_entries(&self) -> (r: &Vec<PairCount>)
        ensures
            r@ == self.pair_entries(),
    {
        &self.modifier_correlations
    }

    /// How many pairs of list entries, over the items, were named `x` and `y`.
    pub fn correlation_count(&self, x: &str, y: &str) -> (r: u64)
        requires
            self.wf(),
        ensures
            r == pairs_in(self.history(), x@, y@),
    {
        let mut i: usize = 0;
        while i < self.modifier_correlations.len()
            invariant
                self.wf(),
                i <= self.modifier_correlations@.len(),
                forall|k: int| 0 <= k < i ==> !(#[trigger] self.modifier_correlations@[k].spec_first() == x@
                    && self.modifier_correlations@[k].spec_second() == y@),
            decreases self.modifier_correlations@.len() - i,
        {
            let e = &self.modifier_correlations[i];
            if same_text(e.first.as_str(), x) && same_text(e.second.as_str(), y) {
                proof {
                    lemma_count_at(self.modifier_correlations@, i as int);
                }
                return e.count;
            }
            i = i + 1;
        }
        proof {
            lemma_count_absent(self.modifier_correlations@, x@, y@);
        }
        0
    }

    /// The thresholds of attribute `a` recorded beside modifier `name`, one per list
    /// entry of that name.
    pub fn threshold_samples(&self, name: &str, a: CoreAttribute) -> (r: Option<&Vec<u32>>)
        requires
            self.wf(),
        ensures
            match r {
                Some(v) => v@ == samples_in(self.history(), name@, a),
                None => samples_in(self.history(), name@, a) == Seq::<u32>::empty(),
            },
    {
        let mut i: usize = 0;
        while i < self.modifier_samples.len()
            invariant
                self.wf(),
                i <= self.modifier_samples@.len(),
                forall|k: int| 0 <= k < i ==> #[trigger] self.modifier_samples@[k].spec_name() != name@,
            decreases self.modifier_samples@.len() - i,
        {
            if same_text(self.modifier_samples[i].name.as_str(), name) {
                proof {
                    lemma_samples_at(self.modifier_samples@, i as int, a);
                }
                return Some(self.modifier_samples[i].samples(a));
            }
            i = i + 1;
        }
        proof {
            lemma_samples_absent(self.modifier_samples@, name@, a);
        }
        None
    }

    /// How many list entries named `name` were on items requiring attribute `a`.
    pub fn occurrence_count(&self, name: &str, a: CoreAttribute) -> (r: usize)
        requires
            self.wf(),
        ensures
            r == samples_in(self.history(), name@, a).len(),
    {
        match self.threshold_samples(name, a) {
            Some(v) => v.len(),
            None => 0,
        }
    }

    /// The thresholds recorded for items of requirement shape `k`.
    pub fn requirement_distribution(&self, k: StatRequirementType) -> (r: &Vec<(u32, u32)>)
        requires
            self.wf(),
            is_canonical(k),
        ensures
            r@ == distribution_in(self.history(), k),
    {
        self.requirement_distributions.get(k)
    }

    pub fn new() -> (r: Self)
        ensures
            r.wf(),
            r.history() == Seq::<Observation>::empty(),
            r.records() == Seq::<ModifierSamples>::empty(),
            r.pair_entries() == Seq::<PairCount>::empty(),
    {
        let r = Self {
            modifier_samples: Vec::new(),
            modifier_correlations: Vec::new(),
            total_items: 0,
            pair_volume: 0,
            requirement_distributions: RequirementDistributions::new(),
            history: Ghost(Seq::empty()),
        };
        assert forall|k: StatRequirementType| #[trigger] r.requirement_distributions.spec_get(k) == distribution_in(r.history@, k) by {
        }
        r
    }

    /// The sum of the squared lengths of the modifier lists observed, which bounds
    /// every pair count.
    pub fn pair_volume(&self) -> (r: u64)
        requires
            self.wf(),
        ensures
            r == pair_volume(self.history()),
    {
        self.pair_volume
    }

    /// How many items have been observed.
    pub fn total_items(&self) -> (r: u64)
        requires
            self.wf(),
        ensures
            r == self.history().len(),
    {
        self.total_items
    }

    /// Observes a listing: its explicit modifiers' names and the thresholds its
    /// requirements state.
    pub fn process_item(&mut self, item: &ItemResponse)
        requires
            old(self).wf(),
            old(self).history().len() < u64::MAX,
            pair_volume(old(self).history()) + item.item.extended.mods.explicit@.len()
                * item.item.extended.mods.explicit@.len() <= u64::MAX,
        ensures
            final(self).wf(),
            final(self).history() == old(self).history().push(
                Observation {
                    names: listed_mod_names(item.item.extended.mods.explicit@),
                    thresholds: thresholds_of(item.item.requirements@),
                },
            ),
    {
        let names = listed_names(&item.item.extended.mods.explicit);
        let t = item.get_stat_requirements();
        self.observe_item(&names, &t);
    }

    /// Observes a canonical item: its modifiers' names and its attribute thresholds.
    pub fn process_canonical_item(&mut self, item: &Item)
        requires
            old(self).wf(),
            old(self).history().len() < u64::MAX,
            pair_volume(old(self).history()) + item.modifiers@.len() * item.modifiers@.len() <= u64::MAX,
        ensures
            final(self).wf(),
            final(self).history() == old(self).history().push(
                Observation { names: modifier_names(item.modifiers@), thresholds: item.stat_requirements.attribute_thresholds },
            ),
    {
        let names = canonical_names(&item.modifiers);
        self.observe_item(&names, &item.stat_requirements.attribute_thresholds);
    }

    /// Observes a cleaned listing: its explicit modifiers' names and the thresholds
    /// its requirements state.
    pub fn process_cleaned_item(&mut self, item: &CleanedItem)
        requires
            old(self).wf(),
            old(self).history().len() < u64::MAX,
            pair_volume(old(self).history()) + item.mod_info.explicit@.len() * item.mod_info.explicit@.len() <= u64::MAX,
        ensures
            final(self).wf(),
            final(self).history() == old(self).history().push(
                Observation { names: mod_names(item.mod_info.explicit@), thresholds: thresholds_of(item.requirements@) },
            ),
    {
        let names = cleaned_names(&item.mod_info.explicit);
        let t = item.get_stat_requirements();
        self.observe_item(&names, &t);
    }

    /// Folds one item into every table. Every entry of the modifier list counts:
    /// each entry adds one sample of every attribute the item requires, and each
    /// pair of entries with distinct names adds one to the pair's count in both
    /// orders. The requirement shape is recorded when the item requires one or two
    /// attributes, and the item total grows by one.
    pub fn observe_item(&mut self, modifier_names: &Vec<String>, requirements: &AttributeThresholds)
        requires
            old(self).wf(),
            old(self).history().len() < u64::MAX,
            pair_volume(old(self).history()) + modifier_names@.len() * modifier_names@.len() <= u64::MAX,
        ensures
            final(self).wf(),
            final(self).history() == old(self).history().push(
                Observation { names: string_views(modifier_names@), thresholds: *requirements },
            ),
    {
        let ghost nv = string_views(modifier_names@);
        let ghost o = Observation { names: nv, thresholds: *requirements };
        let ghost h = self.history@;
        let ghost h2 = h.push(o);
        assert(h2.drop_last() =~= h);
        let n = modifier_names.len();
        let mut i: usize = 0;
        while i < n
            invariant
                i <= n,
                n == modifier_names@.len(),
                nv == string_views(modifier_names@),
                names_unique(self.modifier_samples@),
                forall|m: Seq<char>, a: CoreAttribute| #[trigger]
                    samples_of_records(self.modifier_samples@, m, a) == match requirements.spec_get(a) {
                        Some(v) => samples_in(h, m, a) + copies(v, name_count(nv.take(i as int), m)),
                        None => samples_in(h, m, a),
                    },
                self.history@ == h,
                self.total_items == h.len(),
                self.pair_volume == pair_volume(h),
                pairs_unique(self.modifier_correlations@),
                forall|k: int| 0 <= k < self.modifier_correlations@.len() ==> (#[trigger] self.modifier_correlations@[k]).spec_count() > 0,
                forall|x: Seq<char>, y: Seq<char>| #[trigger]
                    count_of_pairs(self.modifier_correlations@, x, y) == pairs_in(h, x, y),
                forall|k: StatRequirementType| #[trigger]
                    self.requirement_distributions.spec_get(k) == distribution_in(h, k),
            decreases n - i,
        {
            proof {
                assert(nv[i as int] == modifier_names@[i as int]@);
                lemma_name_count_step(nv, i as int);
            }
            let ghost before = self.modifier_samples@;
            self.add_samples(&modifier_names[i], requirements);
            proof {
                assert forall|m: Seq<char>, a: CoreAttribute| #[trigger]
                    samples_of_records(self.modifier_samples@, m, a) == match requirements.spec_get(a) {
                        Some(v) => samples_in(h, m, a) + copies(v, name_count(nv.take(i as int + 1), m)),
                        None => samples_in(h, m, a),
                    } by {
                    if let Some(v) = requirements.spec_get(a) {
                        let c = name_count(nv.take(i as int), m);
                        if m == nv[i as int] {
                            assert((samples_in(h, m, a) + copies(v, c)).push(v) =~= samples_in(h, m, a) + copies(v, c + 1));
                        }
                    }
                }
            }
            i = i + 1;
        }
        assert(nv.take(n as int) =~= nv);
        assert(nv.take(0) =~= Seq::<Seq<char>>::empty());
        assert forall|x: Seq<char>, y: Seq<char>| #[trigger]
            count_of_pairs(self.modifier_correlations@, x, y) == pairs_in(h, x, y) + if x != y {
                name_count(nv.take(0), x) * name_count(nv, y)
            } else {
                0nat
            } by {
            assert(name_count(nv.take(0), x) == 0);
        }
        let mut i: usize = 0;
        while i < n
            invariant
                i <= n,
                n == modifier_names@.len(),
                nv == string_views(modifier_names@),
                names_unique(self.modifier_samples@),
                forall|m: Seq<char>, a: CoreAttribute| #[trigger]
                    samples_of_records(self.modifier_samples@, m, a) == samples_in(h2, m, a),
                self.history@ == h,
                self.total_items == h.len(),
                self.pair_volume == pair_volume(h),
                pair_volume(h) + n * n <= u64::MAX,
                pairs_unique(self.modifier_correlations@),
                forall|k: int| 0 <= k < self.modifier_correlations@.len() ==> (#[trigger] self.modifier_correlations@[k]).spec_count() > 0,
                forall|x: Seq<char>, y: Seq<char>| #[trigger]
                    count_of_pairs(self.modifier_correlations@, x, y) == pairs_in(h, x, y) + if x != y {
                        name_count(nv.take(i as int), x) * name_count(nv, y)
                    } else {
                        0nat
                    },
                forall|k: StatRequirementType| #[trigger]
                    self.requirement_distributions.spec_get(k) == distribution_in(h, k),
            decreases n - i,
        {
            let ghost xi = nv[i as int];
            proof {
                assert(nv[i as int] == modifier_names@[i as int]@);
                lemma_name_count_step(nv, i as int);
            }
            let mut j: usize = 0;
            while j < n
                invariant
                    i < n,
                    j <= n,
                    n == modifier_names@.len(),
                    nv == string_views(modifier_names@),
                    xi == nv[i as int],
                    self.history@ == h,
                    pair_volume(h) + n * n <= u64::MAX,
                    pairs_unique(self.modifier_correlations@),
                    forall|k: int| 0 <= k < self.modifier_correlations@.len() ==> (#[trigger] self.modifier_correlations@[k]).spec_count() > 0,
                    forall|x: Seq<char>, y: Seq<char>| #[trigger]
                        count_of_pairs(self.modifier_correlations@, x, y) == pairs_in(h, x, y) + if x != y {
                            name_count(nv.take(i as int), x) * name_count(nv, y) + if x == xi {
                                name_count(nv.take(j as int), y)
                            } else {
                                0nat
                            }
                        } else {
                            0nat
                        },
                    names_unique(self.modifier_samples@),
                    forall|m: Seq<char>, a: CoreAttribute| #[trigger]
                        samples_of_records(self.modifier_samples@, m, a) == samples_in(h2, m, a),
                    self.total_items == h.len(),
                    self.pair_volume == pair_volume(h),
                    forall|k: StatRequirementType| #[trigger]
                        self.requirement_distributions.spec_get(k) == distribution_in(h, k),
                decreases n - j,
            {
                let ghost yj = nv[j as int];
                proof {
                    assert(nv[j as int] == modifier_names@[j as int]@);
                    lemma_name_count_step(nv, j as int);
                }
                if modifier_names[i] != modifier_names[j] {
                    proof {
                        let (ci, cx, cj, cy) = (
                            name_count(nv.take(i as int), xi),
                            name_count(nv, xi),
                            name_count(nv.take(j as int), yj),
                            name_count(nv, yj),
                        );
                        lemma_name_count_step(nv, i as int);
                        lemma_name_count_prefix(nv, i as int + 1, xi);
                        lemma_name_count_prefix(nv, j as int + 1, yj);
                        lemma_name_counts_within_length(nv, xi, yj);
                        lemma_pairs_within_volume(h, xi, yj);
                        assert(ci * cy + cj + 1 <= cx * cy) by (nonlinear_arith)
                            requires
                                ci + 1 <= cx,
                                cj + 1 <= cy,
                        ;
                    }
                    self.add_pair(&modifier_names[i], &modifier_names[j], 1);
                }
                j = j + 1;
            }
            proof {
                assert(nv.take(n as int) =~= nv);
                assert forall|x: Seq<char>, y: Seq<char>| #[trigger]
                    count_of_pairs(self.modifier_correlations@, x, y) == pairs_in(h, x, y) + if x != y {
                        name_count(nv.take(i as int + 1), x) * name_count(nv, y)
                    } else {
                        0nat
                    } by {
                    let (ci, cy) = (name_count(nv.take(i as int), x), name_count(nv, y));
                    if x == xi {
                        assert((ci + 1) * cy == ci * cy + cy) by (nonlinear_arith);
                    }
                }
            }
            i = i + 1;
        }
        assert(nv.take(n as int) =~= nv);
        assert forall|x: Seq<char>, y: Seq<char>| #[trigger]
            count_of_pairs(self.modifier_correlations@, x, y) == pairs_in(h2, x, y) by {
        }
        match requirement_entry_of(requirements) {
            Some((k, v)) => {
                self.requirement_distributions.slot(k).push(v);
            },
            None => {},
        }
        self.total_items = self.total_items + 1;
        self.pair_volume = self.pair_volume + (n as u64) * (n as u64);
        self.history = Ghost(h2);
        assert forall|k: StatRequirementType| #[trigger]
            self.requirement_distributions.spec_get(k) == distribution_in(h2, k) by {
        }
    }

    /// Folds in everything `other` observed, as if its items had come after the
    /// items observed here: threshold lists and requirement lists are concatenated,
    /// pair counts and the item total are added.
    pub fn merge(&mut self, other: &StatAnalyzer)
        requires
            old(self).wf(),
            other.wf(),
            old(self).history().len() + other.history().len() <= u64::MAX,
            pair_volume(old(self).history()) + pair_volume(other.history()) <= u64::MAX,
        ensures
            final(self).wf(),
            final(self).history() == old(self).history() + other.history(),
    {
        let ghost ha = self.history@;
        let ghost hb = other.history@;
        let ghost orecs = other.modifier_samples@;
        let mut k: usize = 0;
        while k < other.modifier_samples.len()
            invariant
                k <= orecs.len(),
                orecs == other.modifier_samples@,
                other.wf(),
                hb == other.history@,
                names_unique(self.modifier_samples@),
                forall|n: Seq<char>, a: CoreAttribute| #[trigger]
                    samples_of_records(self.modifier_samples@, n, a) == samples_in(ha, n, a)
                        + samples_of_records(orecs.take(k as int), n, a),
                self.history@ == ha,
                self.total_items == ha.len(),
                self.pair_volume == pair_volume(ha),
                pair_volume(ha) + pair_volume(hb) <= u64::MAX,
                forall|q: int| 0 <= q < self.modifier_correlations@.len() ==> (#[trigger] self.modifier_correlations@[q]).spec_count() > 0,
                pairs_unique(self.modifier_correlations@),
                forall|x: Seq<char>, y: Seq<char>| #[trigger]
                    count_of_pairs(self.modifier_correlations@, x, y) == pairs_in(ha, x, y),
                forall|kk: StatRequirementType| #[trigger]
                    self.requirement_distributions.spec_get(kk) == distribution_in(ha, kk),
            decreases orecs.len() - k,
        {
            let ghost before = self.modifier_samples@;
            assert(orecs.take(k as int + 1).drop_last() =~= orecs.take(k as int));
            self.add_sample_lists(&other.modifier_samples[k]);
            proof {
                assert forall|n: Seq<char>, a: CoreAttribute| #[trigger]
                    samples_of_records(self.modifier_samples@, n, a) == samples_in(ha, n, a)
                        + samples_of_records(orecs.take(k as int + 1), n, a) by {
                    let r = orecs[k as int];
                    assert(orecs.take(k as int + 1).last() == r);
                    if r.spec_name() == n {
                        assert(samples_in(ha, n, a) + samples_of_records(orecs.take(k as int), n, a) + r.spec_samples(a)
                            =~= samples_in(ha, n, a) + (samples_of_records(orecs.take(k as int), n, a) + r.spec_samples(a)));
                    }
                }
            }
            k = k + 1;
        }
        assert(orecs.take(k as int) =~= orecs);
        let ghost ops = other.modifier_correlations@;
        let mut k: usize = 0;
        while k < other.modifier_correlations.len()
            invariant
                k <= ops.len(),
                ops == other.modifier_correlations@,
                other.wf(),
                hb == other.history@,
                ha.len() + hb.len() <= u64::MAX,
                names_unique(self.modifier_samples@),
                forall|n: Seq<char>, a: CoreAttribute| #[trigger]
                    samples_of_records(self.modifier_samples@, n, a) == samples_in(ha, n, a)
                        + samples_in(hb, n, a),
                self.history@ == ha,
                self.total_items == ha.len(),
                self.pair_volume == pair_volume(ha),
                pair_volume(ha) + pair_volume(hb) <= u64::MAX,
                forall|q: int| 0 <= q < self.modifier_correlations@.len() ==> (#[trigger] self.modifier_correlations@[q]).spec_count() > 0,
                pairs_unique(self.modifier_correlations@),
                forall|x: Seq<char>, y: Seq<char>| #[trigger]
                    count_of_pairs(self.modifier_correlations@, x, y) == pairs_in(ha, x, y)
                        + count_of_pairs(ops.take(k as int), x, y),
                forall|kk: StatRequirementType| #[trigger]
                    self.requirement_distributions.spec_get(kk) == distribution_in(ha, kk),
            decreases ops.len() - k,
        {
            let e = &other.modifier_correlations[k];
            proof {
                assert(ops.take(k as int + 1).drop_last() =~= ops.take(k as int));
                assert(ops.take(k as int + 1).last() == ops[k as int]);
                lemma_count_prefix(ops, k as int + 1, e.first@, e.second@);
                lemma_pairs_within_volume(ha, e.first@, e.second@);
                lemma_pairs_within_volume(hb, e.first@, e.second@);
                lemma_count_at(ops, k as int);
            }
            self.add_pair(&e.first, &e.second, e.count);
            k = k + 1;
        }
        assert(ops.take(k as int) =~= ops);
        self.requirement_distributions.append(&other.requirement_distributions);
        self.total_items = self.total_items + other.total_items;
        proof {
            lemma_volume_concat(ha, hb);
        }
        self.pair_volume = self.pair_volume + other.pair_volume;
        self.history = Ghost(ha + hb);
        proof {
            assert forall|n: Seq<char>, a: CoreAttribute| #[trigger]
                samples_of_records(self.modifier_samples@, n, a) == samples_in(ha + hb, n, a) by {
                lemma_samples_concat(ha, hb, n, a);
            }
            assert forall|x: Seq<char>, y: Seq<char>| #[trigger]
                count_of_pairs(self.modifier_correlations@, x, y) == pairs_in(ha + hb, x, y) by {
                lemma_pairs_concat(ha, hb, x, y);
            }
            assert forall|kk: StatRequirementType| #[trigger]
                self.requirement_distributions.spec_get(kk) == distribution_in(ha + hb, kk) by {
                lemma_distribution_concat(ha, hb, kk);
            }
        }
    }

    /// Appends every sample list of `rec` to the record of the same name.
    fn add_sample_lists(&mut self, rec: &ModifierSamples)
        requires
            names_unique(old(self).modifier_samples@),
        ensures
            names_unique(final(self).modifier_samples@),
            forall|n: Seq<char>, a: CoreAttribute| #[trigger]
                samples_of_records(final(self).modifier_samples@, n, a) == if n == rec.spec_name() {
                    samples_of_records(old(self).modifier_samples@, n, a) + rec.spec_samples(a)
                } else {
                    samples_of_records(old(self).modifier_samples@, n, a)
                },
            final(self).modifier_correlations == old(self).modifier_correlations,
            final(self).total_items == old(self).total_items,
            final(self).pair_volume == old(self).pair_volume,
            final(self).requirement_distributions == old(self).requirement_distributions,
            final(self).history == old(self).history,
    {
        let ghost start = self.modifier_samples@;
        let mut i: usize = 0;
        while i < self.modifier_samples.len() && self.modifier_samples[i].name != rec.name
            invariant
                i <= self.modifier_samples@.len(),
                self.modifier_samples@ == start,
                forall|k: int| 0 <= k < i ==> #[trigger] start[k].spec_name() != rec.spec_name(),
            decreases self.modifier_samples@.len() - i,
        {
            i = i + 1;
        }
        if i == self.modifier_samples.len() {
            self.modifier_samples.push(
                ModifierSamples {
                    name: rec.name.clone(),
                    strength: Vec::new(),
                    dexterity: Vec::new(),
                    intelligence: Vec::new(),
                },
            );
            proof {
                let u = self.modifier_samples@;
                assert(u.drop_last() =~= start);
                assert forall|n: Seq<char>, a: CoreAttribute| #[trigger]
                    samples_of_records(u, n, a) == samples_of_records(start, n, a) by {
                    assert(u.last().spec_samples(a) =~= Seq::<u32>::empty());
                    assert(samples_of_records(start, n, a) + Seq::<u32>::empty() =~= samples_of_records(start, n, a));
                }
                assert forall|x: int, y: int| 0 <= x < y < u.len() implies #[trigger] u[x].spec_name() != #[trigger] u[y].spec_name() by {
                    if y == u.len() - 1 {
                        assert(u[x] == start[x]);
                    } else {
                        assert(u[x] == start[x] && u[y] == start[y]);
                    }
                }
            }
        }
        let ghost mid = self.modifier_samples@;
        assert(mid[i as int].spec_name() == rec.spec_name());
        proof {
            lemma_samples_at(mid, i as int, CoreAttribute::Strength);
            lemma_samples_at(mid, i as int, CoreAttribute::Dexterity);
            lemma_samples_at(mid, i as int, CoreAttribute::Intelligence);
        }
        self.modifier_samples[i].extend(CoreAttribute::Strength, &rec.strength);
        self.modifier_samples[i].extend(CoreAttribute::Dexterity, &rec.dexterity);
        self.modifier_samples[i].extend(CoreAttribute::Intelligence, &rec.intelligence);
        proof {
            let u = self.modifier_samples@;
            assert(u =~= mid.update(i as int, u[i as int]));
            assert forall|x: int, y: int| 0 <= x < y < u.len() implies #[trigger] u[x].spec_name() != #[trigger] u[y].spec_name() by {
                assert(x != i ==> u[x] == mid[x]);
                assert(y != i ==> u[y] == mid[y]);
            }
            assert forall|n: Seq<char>, a: CoreAttribute| #[trigger]
                samples_of_records(u, n, a) == if n == rec.spec_name() {
                    samples_of_records(start, n, a) + rec.spec_samples(a)
                } else {
                    samples_of_records(start, n, a)
                } by {
                if n == rec.spec_name() {
                    lemma_samples_at(u, i as int, a);
                } else {
                    lemma_samples_update(mid, i as int, u[i as int], n, a);
                }
            }
        }
    }

    /// Adds one threshold sample for every attribute `t` requires to the record of `name`.
    fn add_samples(&mut self, name: &String, t: &AttributeThresholds)
        requires
            names_unique(old(self).modifier_samples@),
        ensures
            names_unique(final(self).modifier_samples@),
            forall|n: Seq<char>, a: CoreAttribute| #[trigger]
                samples_of_records(final(self).modifier_samples@, n, a) == if n == name@
                    && t.spec_get(a) is Some {
                    samples_of_records(old(self).modifier_samples@, n, a).push(t.spec_get(a).unwrap())
                } else {
                    samples_of_records(old(self).modifier_samples@, n, a)
                },
            final(self).modifier_correlations == old(self).modifier_correlations,
            final(self).total_items == old(self).total_items,
            final(self).pair_volume == old(self).pair_volume,
            final(self).requirement_distributions == old(self).requirement_distributions,
            final(self).history == old(self).history,
    {
        let ghost start = self.modifier_samples@;
        let mut i: usize = 0;
        while i < self.modifier_samples.len() && self.modifier_samples[i].name != *name
            invariant
                i <= self.modifier_samples@.len(),
                self.modifier_samples@ == start,
                forall|k: int| 0 <= k < i ==> #[trigger] start[k].spec_name() != name@,
            decreases self.modifier_samples@.len() - i,
        {
            i = i + 1;
        }
        if i == self.modifier_samples.len() {
            self.modifier_samples.push(
                ModifierSamples {
                    name: name.clone(),
                    strength: Vec::new(),
                    dexterity: Vec::new(),
                    intelligence: Vec::new(),
                },
            );
            proof {
                let u = self.modifier_samples@;
                assert(u.drop_last() =~= start);
                assert forall|n: Seq<char>, a: CoreAttribute| #[trigger]
                    samples_of_records(u, n, a) == samples_of_records(start, n, a) by {
                    assert(u.last().spec_samples(a) =~= Seq::<u32>::empty());
                    assert(samples_of_records(start, n, a) + Seq::<u32>::empty() =~= samples_of_records(start, n, a));
                }
                assert forall|x: int, y: int| 0 <= x < y < u.len() implies #[trigger] u[x].spec_name() != #[trigger] u[y].spec_name() by {
                    if y == u.len() - 1 {
                        assert(u[x] == start[x]);
                    } else {
                        assert(u[x] == start[x] && u[y] == start[y]);
                    }
                }
            }
        }
        let ghost mid = self.modifier_samples@;
        assert(mid[i as int].spec_name() == name@);
        proof {
            lemma_samples_at(mid, i as int, CoreAttribute::Strength);
            lemma_samples_at(mid, i as int, CoreAttribute::Dexterity);
            lemma_samples_at(mid, i as int, CoreAttribute::Intelligence);
        }
        if let Some(v) = t.strength {
            self.modifier_samples[i].push(CoreAttribute::Strength, v);
        }
        if let Some(v) = t.dexterity {
            self.modifier_samples[i].push(CoreAttribute::Dexterity, v);
        }
        if let Some(v) = t.intelligence {
            self.modifier_samples[i].push(CoreAttribute::Intelligence, v);
        }
        proof {
            let u = self.modifier_samples@;
            assert(u =~= mid.update(i as int, u[i as int]));
            assert forall|x: int, y: int| 0 <= x < y < u.len() implies #[trigger] u[x].spec_name() != #[trigger] u[y].spec_name() by {
                assert(x != i ==> u[x] == mid[x]);
                assert(y != i ==> u[y] == mid[y]);
            }
            assert forall|n: Seq<char>, a: CoreAttribute| #[trigger]
                samples_of_records(u, n, a) == if n == name@ && t.spec_get(a) is Some {
                    samples_of_records(start, n, a).push(t.spec_get(a).unwrap())
                } else {
                    samples_of_records(start, n, a)
                } by {
                if n == name@ {
                    lemma_samples_at(u, i as int, a);
                } else {
                    lemma_samples_update(mid, i as int, u[i as int], n, a);
                }
            }
        }
    }

    /// Counts `delta` more pairs of entries named `x` and `y`, in that order.
    fn add_pair(&mut self, x: &String, y: &String, delta: u64)
        requires
            pairs_unique(old(self).modifier_correlations@),
            count_of_pairs(old(self).modifier_correlations@, x@, y@) + delta <= u64::MAX,
            delta > 0,
            forall|k: int| 0 <= k < old(self).modifier_correlations@.len() ==> (#[trigger] old(self).modifier_correlations@[k]).spec_count() > 0,
        ensures
            pairs_unique(final(self).modifier_correlations@),
            forall|k: int| 0 <= k < final(self).modifier_correlations@.len() ==> (#[trigger] final(self).modifier_correlations@[k]).spec_count() > 0,
            forall|p: Seq<char>, q: Seq<char>| #[trigger]
                count_of_pairs(final(self).modifier_correlations@, p, q) == count_of_pairs(
                    old(self).modifier_correlations@,
                    p,
                    q,
                ) + if p == x@ && q == y@ {
                    delta as nat
                } else {
                    0nat
                },
            final(self).modifier_samples == old(self).modifier_samples,
            final(self).total_items == old(self).total_items,
            final(self).pair_volume == old(self).pair_volume,
            final(self).requirement_distributions == old(self).requirement_distributions,
            final(self).history == old(self).history,
    {
        let ghost start = self.modifier_correlations@;
        let mut i: usize = 0;
        while i < self.modifier_correlations.len() && !(self.modifier_correlations[i].first == *x
            && self.modifier_correlations[i].second == *y)
            invariant
                i <= self.modifier_correlations@.len(),
                self.modifier_correlations@ == start,
                forall|k: int| 0 <= k < i ==> !(#[trigger] start[k].spec_first() == x@ && start[k].spec_second() == y@),
            decreases self.modifier_correlations@.len() - i,
        {
            i = i + 1;
        }
        if i == self.modifier_correlations.len() {
            self.modifier_correlations.push(PairCount { first: x.clone(), second: y.clone(), count: delta });
            proof {
                let u = self.modifier_correlations@;
                assert(u.drop_last() =~= start);
                assert forall|a: int, b: int| 0 <= a < b < u.len() implies (#[trigger] u[a].spec_first() != #[trigger] u[b].spec_first()
                    || u[a].spec_second() != u[b].spec_second()) by {
                    if b == u.len() - 1 {
                        assert(u[a] == start[a]);
                    } else {
                        assert(u[a] == start[a] && u[b] == start[b]);
                    }
                }
            }
        } else {
            proof {
                lemma_count_at(start, i as int);
            }
            let c = self.modifier_correlations[i].count;
            self.modifier_correlations[i].count = c + delta;
            proof {
                let u = self.modifier_correlations@;
                assert(u =~= start.update(i as int, u[i as int]));
                assert forall|a: int, b: int| 0 <= a < b < u.len() implies (#[trigger] u[a].spec_first() != #[trigger] u[b].spec_first()
                    || u[a].spec_second() != u[b].spec_second()) by {
                    assert(a != i ==> u[a] == start[a]);
                    assert(b != i ==> u[b] == start[b]);
                }
                assert forall|p: Seq<char>, q: Seq<char>| #[trigger]
                    count_of_pairs(u, p, q) == count_of_pairs(start, p, q) + if p == x@ && q == y@ {
                        delta as nat
                    } else {
                        0nat
                    } by {
                    lemma_count_update(start, i as int, u[i as int], p, q);
                }
            }
        }
    }
}

/// Co-occurrence counts are symmetric: after any sequence of observations and
/// merges, the count of `(x, y)` equals the count of `(y, x)`.
pub proof fn lemma_correlation_symmetric(analyzer: &StatAnalyzer, x: Seq<char>, y: Seq<char>)
    requires
        analyzer.wf(),
    ensures
        pairs_in(analyzer.history(), x, y) == pairs_in(analyzer.history(), y, x),
{
    lemma_pairs_symmetric(analyzer.history(), x, y);
}

/// Every pair entry has a positive count, and its mirror entry is listed with the
/// same count, so both orders of each pair appear.
pub proof fn lemma_pairs_listed_both_ways(analyzer: &StatAnalyzer, i: int)
    requires
        analyzer.wf(),
        0 <= i < analyzer.pair_entries().len(),
    ensures
        analyzer.pair_entries()[i].spec_count() > 0,
        exists|j: int|
            0 <= j < analyzer.pair_entries().len() && (#[trigger] analyzer.pair_entries()[j]).spec_first()
                == analyzer.pair_entries()[i].spec_second() && analyzer.pair_entries()[j].spec_second()
                == analyzer.pair_entries()[i].spec_first() && analyzer.pair_entries()[j].spec_count()
                == analyzer.pair_entries()[i].spec_count(),
{
    let ps = analyzer.pair_entries();
    let (x, y) = (ps[i].spec_first(), ps[i].spec_second());
    lemma_count_at(ps, i);
    lemma_pairs_symmetric(analyzer.history(), x, y);
    if forall|j: int| 0 <= j < ps.len() ==> !(#[trigger] ps[j].spec_first() == y && ps[j].spec_second() == x) {
        lemma_count_absent(ps, y, x);
    }
    let j = choose|j: int| 0 <= j < ps.len() && #[trigger] ps[j].spec_first() == y && ps[j].spec_second() == x;
    lemma_count_at(ps, j);
}

/// Splitting a batch in two, aggregating each part on its own and merging the two
/// gives the tables of aggregating the whole batch in order: threshold lists and
/// requirement lists are the concatenations of the parts', pair counts and item
/// totals their sums.
pub proof fn lemma_merge_matches_sequential(first: Seq<Observation>, second: Seq<Observation>)
    ensures
        (first + second).len() == first.len() + second.len(),
        forall|n: Seq<char>, a: CoreAttribute| #[trigger] samples_in(first + second, n, a)
            == samples_in(first, n, a) + samples_in(second, n, a),
        forall|x: Seq<char>, y: Seq<char>| #[trigger] pairs_in(first + second, x, y)
            == pairs_in(first, x, y) + pairs_in(second, x, y),
        forall|k: StatRequirementType| #[trigger] distribution_in(first + second, k)
            == distribution_in(first, k) + distribution_in(second, k),
{
    assert forall|n: Seq<char>, a: CoreAttribute| #[trigger] samples_in(first + second, n, a)
        == samples_in(first, n, a) + samples_in(second, n, a) by {
        lemma_samples_concat(first, second, n, a);
    }
    assert forall|x: Seq<char>, y: Seq<char>| #[trigger] pairs_in(first + second, x, y)
        == pairs_in(first, x, y) + pairs_in(second, x, y) by {
        lemma_pairs_concat(first, second, x, y);
    }
    assert forall|k: StatRequirementType| #[trigger] distribution_in(first + second, k)
        == distribution_in(first, k) + distribution_in(second, k) by {
        lemma_distribution_concat(first, second, k);
    }
}

} // verus!
