//! Value and price statistics per modifier name.
use vstd::prelude::*;
use crate::numeric::{amount_of_text, parse_amount, same_text, MAX_AMOUNT};
use crate::poe_item::{mod_value, ItemResponse, ModInfo};
use crate::stats::ModifierStats;

verus! {

/// The `(value, price)` points observed for modifier `n`, in order.
pub open spec fn points_in(h: Seq<(Seq<char>, i64, i64)>, n: Seq<char>) -> Seq<(i64, i64)>
    decreases h.len(),
{
    if h.len() == 0 {
        Seq::empty()
    } else if h.last().0 == n {
        points_in(h.drop_last(), n).push((h.last().1, h.last().2))
    } else {
        points_in(h.drop_last(), n)
    }
}

/// The observations a listing gives when its price is `price`: one per explicit
/// modifier whose value is a number, in listing order.
pub open spec fn value_observations(mods: Seq<ModInfo>, price: i64) -> Seq<(Seq<char>, i64, i64)>
    decreases mods.len(),
{
    if mods.len() == 0 {
        Seq::empty()
    } else {
        let prev = value_observations(mods.drop_last(), price);
        match mod_value(mods.last().base) {
            Some(v) => prev.push((mods.last().base.name@, v, price)),
            None => prev,
        }
    }
}

/// The observations a listing gives: none when it has no price that is a number.
pub open spec fn listing_observations(item: ItemResponse) -> Seq<(Seq<char>, i64, i64)> {
    match item.listing.price {
        Some(p) => match amount_of_text(p.amount@) {
            Some(a) => value_observations(item.item.extended.mods.explicit@, a),
            None => Seq::empty(),
        },
        None => Seq::empty(),
    }
}

pub open spec fn points_of_stats(s: Seq<ModifierStats>, n: Seq<char>) -> Seq<(i64, i64)>
    decreases s.len(),
{
    if s.len() == 0 {
        Seq::empty()
    } else if s.last().name_view() == n {
        points_of_stats(s.drop_last(), n) + s.last().points()
    } else {
        points_of_stats(s.drop_last(), n)
    }
}

pub open spec fn stats_names_unique(s: Seq<ModifierStats>) -> bool {
    forall|i: int, j: int| 0 <= i < j < s.len() ==> #[trigger] s[i].name_view() != #[trigger] s[j].name_view()
}

proof fn lemma_points_absent(s: Seq<ModifierStats>, n: Seq<char>)
    requires
        forall|k: int| 0 <= k < s.len() ==> #[trigger] s[k].name_view() != n,
    ensures
        points_of_stats(s, n) == Seq::<(i64, i64)>::empty(),
    decreases s.len(),
{
    if s.len() > 0 {
        let t = s.drop_last();
        assert forall|k: int| 0 <= k < t.len() implies #[trigger] t[k].name_view() != n by {
            assert(t[k] == s[k]);
        }
        lemma_points_absent(t, n);
        assert(s.last() == s[s.len() - 1]);
    }
}

proof fn lemma_points_at(s: Seq<ModifierStats>, i: int)
    requires
        stats_names_unique(s),
        0 <= i < s.len(),
    ensures
        points_of_stats(s, s[i].name_view()) == s[i].points(),
    decreases s.len(),
{
    let t = s.drop_last();
    let n = s[i].name_view();
    if i == s.len() - 1 {
        assert forall|k: int| 0 <= k < t.len() implies #[trigger] t[k].name_view() != n by {
            assert(t[k] == s[k]);
        }
        lemma_points_absent(t, n);
        assert(Seq::<(i64, i64)>::empty() + s[i].points() =~= s[i].points());
    } else {
        assert(stats_names_unique(t)) by {
            assert forall|x: int, y: int| 0 <= x < y < t.len() implies #[trigger] t[x].name_view() != #[trigger] t[y].name_view() by {
                assert(t[x] == s[x] && t[y] == s[y]);
            }
        }
        assert(t[i] == s[i]);
        lemma_points_at(t, i);
        assert(s.last() == s[s.len() - 1]);
    }
}

proof fn lemma_points_update(s: Seq<ModifierStats>, i: int, e: ModifierStats, n: Seq<char>)
    requires
        0 <= i < s.len(),
        e.name_view() == s[i].name_view(),
        n != e.name_view(),
    ensures
        points_of_stats(s.update(i, e), n) == points_of_stats(s, n),
    decreases s.len(),
{
    let u = s.update(i, e);
    if i == s.len() - 1 {
        assert(u.drop_last() =~= s.drop_last());
    } else {
        assert(u.drop_last() =~= s.drop_last().update(i, e));
        lemma_points_update(s.drop_last(), i, e, n);
    }
}

proof fn lemma_points_bounded(h: Seq<(Seq<char>, i64, i64)>, n: Seq<char>)
    ensures
        points_in(h, n).len() <= h.len(),
    decreases h.len(),
{
    if h.len() > 0 {
        lemma_points_bounded(h.drop_last(), n);
    }
}

proof fn lemma_points_concat(xs: Seq<(Seq<char>, i64, i64)>, ys: Seq<(Seq<char>, i64, i64)>, n: Seq<char>)
    ensures
        points_in(xs + ys, n) == points_in(xs, n) + points_in(ys, n),
    decreases ys.len(),
{
    if ys.len() == 0 {
        assert(xs + ys =~= xs);
        assert(points_in(xs, n) + Seq::<(i64, i64)>::empty() =~= points_in(xs, n));
    } else {
        assert((xs + ys).drop_last() =~= xs + ys.drop_last());
        lemma_points_concat(xs, ys.drop_last(), n);
        if ys.last().0 == n {
            assert((points_in(xs, n) + points_in(ys.drop_last(), n)).push((ys.last().1, ys.last().2))
                =~= points_in(xs, n) + points_in(ys.drop_last(), n).push((ys.last().1, ys.last().2)));
        }
    }
}

/// Per modifier name, the `(value, price)` points observed and their statistics.
pub struct ModifierAnalyzer {
    stats: Vec<ModifierStats>,
    value_ranges: Vec<i64>,
    min_price: Option<i64>,
    max_price: Option<i64>,
    observations: u32,
    history: Ghost<Seq<(Seq<char>, i64, i64)>>,
}

impl ModifierAnalyzer {
    /// Every observation so far: a modifier name, a value and a price.
    pub closed spec fn history(&self) -> Seq<(Seq<char>, i64, i64)> {
        self.history@
    }

    pub closed spec fn wf(&self) -> bool {
        &&& stats_names_unique(self.stats@)
        &&& self.observations == self.history@.len()
        &&& forall|i: int| 0 <= i < self.stats@.len() ==> (#[trigger] self.stats@[i]).wf()
        &&& forall|n: Seq<char>| #[trigger] points_of_stats(self.stats@, n) == points_in(self.history@, n)
    }

    pub closed spec fn spec_value_ranges(&self) -> Seq<i64> {
        self.value_ranges@
    }

    pub closed spec fn price_range(&self) -> (Option<i64>, Option<i64>) {
        (self.min_price, self.max_price)
    }

    /// An analyzer with no observations; `value_ranges` are band edges kept for callers.
    pub fn new(value_ranges: Vec<i64>) -> (r: Self)
        ensures
            r.wf(),
            r.history() == Seq::<(Seq<char>, i64, i64)>::empty(),
            r.spec_value_ranges() == value_ranges@,
            r.price_range() == (None::<i64>, None::<i64>),
    {
        Self {
            stats: Vec::new(),
            value_ranges,
            min_price: None,
            max_price: None,
            observations: 0,
            history: Ghost(Seq::empty()),
        }
    }

    /// How many observations have been recorded.
    pub fn observation_count(&self) -> (r: u32)
        requires
            self.wf(),
        ensures
            r == self.history().len(),
    {
        self.observations
    }

    pub fn value_ranges(&self) -> (r: &Vec<i64>)
        ensures
            r@ == self.spec_value_ranges(),
    {
        &self.value_ranges
    }

    pub fn set_price_range(&mut self, min: i64, max: i64)
        ensures
            final(self).wf() == old(self).wf(),
            final(self).history() == old(self).history(),
            final(self).spec_value_ranges() == old(self).spec_value_ranges(),
            final(self).price_range() == (Some(min), Some(max)),
    {
        self.min_price = Some(min);
        self.max_price = Some(max);
    }

    pub fn get_price_range(&self) -> (r: (Option<i64>, Option<i64>))
        ensures
            r == self.price_range(),
    {
        (self.min_price, self.max_price)
    }

    /// The statistics of modifier `name`, if it has been observed.
    pub fn get_stats(&self, name: &str) -> (r: Option<&ModifierStats>)
        requires
            self.wf(),
        ensures
            match r {
                Some(s) => s.wf() && s.name_view() == name@ && s.points() == points_in(self.history(), name@),
                None => points_in(self.history(), name@) == Seq::<(i64, i64)>::empty(),
            },
    {
        let mut i: usize = 0;
        while i < self.stats.len()
            invariant
                self.wf(),
                i <= self.stats@.len(),
                forall|k: int| 0 <= k < i ==> #[trigger] self.stats@[k].name_view() != name@,
            decreases self.stats@.len() - i,
        {
            if same_text(self.stats[i].name().as_str(), name) {
                proof {
                    lemma_points_at(self.stats@, i as int);
                }
                return Some(&self.stats[i]);
            }
            i = i + 1;
        }
        proof {
            lemma_points_absent(self.stats@, name@);
        }
        None
    }

    /// Position of the statistics of `name`, created empty when there are none yet.
    fn slot_for(&mut self, name: &String) -> (i: usize)
        requires
            old(self).wf(),
        ensures
            final(self).wf(),
            final(self).history() == old(self).history(),
            final(self).spec_value_ranges() == old(self).spec_value_ranges(),
            final(self).price_range() == old(self).price_range(),
            i < final(self).stats@.len(),
            final(self).stats@[i as int].name_view() == name@,
    {
        let mut i: usize = 0;
        while i < self.stats.len() && *self.stats[i].name() != *name
            invariant
                self.wf(),
                i <= self.stats@.len(),
                forall|k: int| 0 <= k < i ==> #[trigger] self.stats@[k].name_view() != name@,
            decreases self.stats@.len() - i,
        {
            i = i + 1;
        }
        if i == self.stats.len() {
            let ghost start = self.stats@;
            self.stats.push(ModifierStats::new(name.clone()));
            proof {
                let u = self.stats@;
                assert(u.drop_last() =~= start);
                assert forall|n: Seq<char>| #[trigger] points_of_stats(u, n) == points_in(self.history@, n) by {
                    assert(points_of_stats(start, n) + Seq::<(i64, i64)>::empty() =~= points_of_stats(start, n));
                }
                assert forall|x: int, y: int| 0 <= x < y < u.len() implies #[trigger] u[x].name_view() != #[trigger] u[y].name_view() by {
                    if y == u.len() - 1 {
                        assert(u[x] == start[x]);
                    } else {
                        assert(u[x] == start[x] && u[y] == start[y]);
                    }
                }
                assert forall|k: int| 0 <= k < u.len() implies (#[trigger] u[k]).wf() by {
                    if k < start.len() {
                        assert(u[k] == start[k]);
                    }
                }
            }
        }
        i
    }

    /// Records that modifier `name` was seen with `value` on an item priced `price`.
    pub fn observe(&mut self, name: &String, value: i64, price: i64)
        requires
            old(self).wf(),
            old(self).history().len() < u32::MAX,
            -MAX_AMOUNT <= value <= MAX_AMOUNT,
        ensures
            final(self).wf(),
            final(self).history() == old(self).history().push((name@, value, price)),
            final(self).spec_value_ranges() == old(self).spec_value_ranges(),
            final(self).price_range() == old(self).price_range(),
    {
        let ghost h = self.history@;
        let i = self.slot_for(name);
        let ghost mid = self.stats@;
        proof {
            lemma_points_at(mid, i as int);
            lemma_points_bounded(h, name@);
        }
        self.stats[i].add_data_point(value, price);
        let ghost h2 = h.push((name@, value, price));
        self.observations = self.observations + 1;
        self.history = Ghost(h2);
        proof {
            let u = self.stats@;
            assert(h2.drop_last() =~= h);
            assert(u =~= mid.update(i as int, u[i as int]));
            assert forall|x: int, y: int| 0 <= x < y < u.len() implies #[trigger] u[x].name_view() != #[trigger] u[y].name_view() by {
                assert(x != i ==> u[x] == mid[x]);
                assert(y != i ==> u[y] == mid[y]);
            }
            assert forall|k: int| 0 <= k < u.len() implies (#[trigger] u[k]).wf() by {
                assert(k != i ==> u[k] == mid[k]);
            }
            assert forall|n: Seq<char>| #[trigger] points_of_stats(u, n) == points_in(h2, n) by {
                if n == name@ {
                    lemma_points_at(u, i as int);
                } else {
                    lemma_points_update(mid, i as int, u[i as int], n);
                }
            }
        }
    }

    /// Records every explicit modifier of a listing whose value is a number, at the
    /// listing's price; a listing without a price that is a number records nothing.
    pub fn process_item(&mut self, item: &ItemResponse)
        requires
            old(self).wf(),
            old(self).history().len() + item.item.extended.mods.explicit@.len() < u32::MAX,
        ensures
            final(self).wf(),
            final(self).history() == old(self).history() + listing_observations(*item),
    {
        let price = match &item.listing.price {
            Some(p) => match parse_amount(p.amount.as_str()) {
                Some(a) => a,
                None => {
                    assert(old(self).history() + Seq::<(Seq<char>, i64, i64)>::empty() =~= old(self).history());
                    return;
                },
            },
            None => {
                assert(old(self).history() + Seq::<(Seq<char>, i64, i64)>::empty() =~= old(self).history());
                return;
            },
        };
        let mods = &item.item.extended.mods.explicit;
        let mut i: usize = 0;
        while i < mods.len()
            invariant
                self.wf(),
                i <= mods@.len(),
                self.history() == old(self).history() + value_observations(mods@.take(i as int), price),
                old(self).history().len() + mods@.len() < u32::MAX,
                value_observations(mods@.take(i as int), price).len() <= i,
            decreases mods@.len() - i,
        {
            let ghost t = mods@.take(i as int + 1);
            assert(t.drop_last() =~= mods@.take(i as int));
            assert(t.last() == mods@[i as int]);
            match mods[i].base.get_value() {
                Some(v) => {
                    proof {
                        if mods[i as int].base.magnitudes@.len() > 0 {
                            let s = mods[i as int].base.magnitudes@[0].min@;
                            assert(amount_of_text(s) == Some(v));
                        }
                    }
                    self.observe(&mods[i].base.name, v, price);
                    assert(old(self).history() + value_observations(t, price) =~= (old(self).history()
                        + value_observations(mods@.take(i as int), price)).push((mods@[i as int].base.name@, v, price)));
                },
                None => {},
            }
            i = i + 1;
        }
        assert(mods@.take(i as int) =~= mods@);
    }

    /// Folds in every observation of `other`, as if they had come after those here.
    pub fn merge(&mut self, other: &ModifierAnalyzer)
        requires
            old(self).wf(),
            other.wf(),
            old(self).history().len() + other.history().len() <= u32::MAX,
        ensures
            final(self).wf(),
            final(self).history() == old(self).history() + other.history(),
            final(self).spec_value_ranges() == old(self).spec_value_ranges(),
            final(self).price_range() == old(self).price_range(),
    {
        let ghost ha = self.history@;
        let ghost hb = other.history@;
        let ghost os = other.stats@;
        let mut k: usize = 0;
        while k < other.stats.len()
            invariant
                k <= os.len(),
                os == other.stats@,
                other.wf(),
                hb == other.history@,
                self.history@ == ha,
                self.observations == ha.len(),
                ha.len() + hb.len() <= u32::MAX,
                stats_names_unique(self.stats@),
                forall|i: int| 0 <= i < self.stats@.len() ==> (#[trigger] self.stats@[i]).wf(),
                forall|n: Seq<char>| #[trigger] points_of_stats(self.stats@, n) == points_in(ha, n)
                    + points_of_stats(os.take(k as int), n),
                self.spec_value_ranges() == old(self).spec_value_ranges(),
                self.price_range() == old(self).price_range(),
            decreases os.len() - k,
        {
            let ghost t = os.take(k as int + 1);
            assert(t.drop_last() =~= os.take(k as int));
            assert(t.last() == os[k as int]);
            let src = &other.stats[k];
            let ghost before = self.stats@;
            // the slot is found or created while the invariant holds over `ha + prefix`
            let mut i: usize = 0;
            while i < self.stats.len() && *self.stats[i].name() != *src.name()
                invariant
                    i <= self.stats@.len(),
                    self.stats@ == before,
                    forall|q: int| 0 <= q < i ==> #[trigger] before[q].name_view() != src.name_view(),
                decreases self.stats@.len() - i,
            {
                i = i + 1;
            }
            if i == self.stats.len() {
                self.stats.push(ModifierStats::new(src.name().clone()));
                proof {
                    let u = self.stats@;
                    assert(u.drop_last() =~= before);
                    assert forall|n: Seq<char>| #[trigger] points_of_stats(u, n) == points_of_stats(before, n) by {
                        assert(points_of_stats(before, n) + Seq::<(i64, i64)>::empty() =~= points_of_stats(before, n));
                    }
                    assert forall|x: int, y: int| 0 <= x < y < u.len() implies #[trigger] u[x].name_view() != #[trigger] u[y].name_view() by {
                        if y == u.len() - 1 {
                            assert(u[x] == before[x]);
                        } else {
                            assert(u[x] == before[x] && u[y] == before[y]);
                        }
                    }
                    assert forall|q: int| 0 <= q < u.len() implies (#[trigger] u[q]).wf() by {
                        if q < before.len() {
                            assert(u[q] == before[q]);
                        }
                    }
                }
            }
            let ghost mid = self.stats@;
            proof {
                lemma_points_at(mid, i as int);
                lemma_points_at(os, k as int);
                lemma_points_bounded(ha, src.name_view());
                lemma_points_bounded(hb, src.name_view());
                lemma_points_prefix(os, k as int, src.name_view());
                assert(os[k as int].wf());
            }
            self.stats[i].merge(src);
            proof {
                let u = self.stats@;
                assert(u =~= mid.update(i as int, u[i as int]));
                assert forall|x: int, y: int| 0 <= x < y < u.len() implies #[trigger] u[x].name_view() != #[trigger] u[y].name_view() by {
                    assert(x != i ==> u[x] == mid[x]);
                    assert(y != i ==> u[y] == mid[y]);
                }
                assert forall|q: int| 0 <= q < u.len() implies (#[trigger] u[q]).wf() by {
                    assert(q != i ==> u[q] == mid[q]);
                }
                assert forall|n: Seq<char>| #[trigger] points_of_stats(u, n) == points_in(ha, n)
                    + points_of_stats(os.take(k as int + 1), n) by {
                    if n == src.name_view() {
                        lemma_points_at(u, i as int);
                        assert(points_in(ha, n) + points_of_stats(os.take(k as int), n) + src.points()
                            =~= points_in(ha, n) + (points_of_stats(os.take(k as int), n) + src.points()));
                    } else {
                        lemma_points_update(mid, i as int, u[i as int], n);
                    }
                }
            }
            k = k + 1;
        }
        assert(os.take(k as int) =~= os);
        self.observations = self.observations + other.observations;
        self.history = Ghost(ha + hb);
        assert forall|n: Seq<char>| #[trigger] points_of_stats(self.stats@, n) == points_in(ha + hb, n) by {
            lemma_points_concat(ha, hb, n);
        }
    }
}

proof fn lemma_points_prefix(s: Seq<ModifierStats>, k: int, n: Seq<char>)
    requires
        0 <= k < s.len(),
        s[k].name_view() == n,
    ensures
        points_of_stats(s.take(k), n).len() + s[k].points().len() <= points_of_stats(s, n).len(),
    decreases s.len(),
{
    if k < s.len() - 1 {
        assert(s.drop_last().take(k) =~= s.take(k));
        assert(s.drop_last()[k] == s[k]);
        lemma_points_prefix(s.drop_last(), k, n);
    } else {
        assert(s.drop_last() =~= s.take(k));
    }
}

/// Observing a batch in two parts with two analyzers and merging them gives each
/// modifier the points of observing the whole batch in order, and so the same
/// statistics.
pub proof fn lemma_value_merge_matches_sequential(
    first: Seq<(Seq<char>, i64, i64)>,
    second: Seq<(Seq<char>, i64, i64)>,
)
    ensures
        forall|n: Seq<char>| #[trigger] points_in(first + second, n) == points_in(first, n) + points_in(second, n),
{
    assert forall|n: Seq<char>| #[trigger] points_in(first + second, n) == points_in(first, n) + points_in(second, n) by {
        lemma_points_concat(first, second, n);
    }
}

} // verus!
