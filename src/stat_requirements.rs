//! The three core attributes, attribute requirements, and a catalog of base types.
use vstd::prelude::*;
use vstd::string::*;
use crate::item_type::ItemCategory;
use crate::numeric::same_text;

verus! {

#[derive(Debug, Clone, Copy, PartialEq, Eq, Structural, Hash)]
pub enum CoreAttribute {
    Strength,
    Dexterity,
    Intelligence,
}

/// Position of an attribute when ordered by its name: Dexterity, Intelligence, Strength.
pub open spec fn name_rank(a: CoreAttribute) -> nat {
    match a {
        CoreAttribute::Dexterity => 0,
        CoreAttribute::Intelligence => 1,
        CoreAttribute::Strength => 2,
    }
}

/// Position of an attribute in declaration order: Strength, Dexterity, Intelligence.
pub open spec fn declared_rank(a: CoreAttribute) -> nat {
    match a {
        CoreAttribute::Strength => 0,
        CoreAttribute::Dexterity => 1,
        CoreAttribute::Intelligence => 2,
    }
}

impl CoreAttribute {
    /// Orders attributes by name.
    pub fn name_rank(&self) -> (r: u8)
        ensures
            r == name_rank(*self),
    {
        match self {
            CoreAttribute::Dexterity => 0,
            CoreAttribute::Intelligence => 1,
            CoreAttribute::Strength => 2,
        }
    }
}

/// The attribute that a requirement label names. A label may give the full name,
/// the short name, or both in the bracketed form that listings use.
pub open spec fn attribute_of_label(label: Seq<char>) -> Option<CoreAttribute> {
    if label == "Strength"@ || label == "Str"@ || label == "[Strength|Str]"@ {
        Some(CoreAttribute::Strength)
    } else if label == "Dexterity"@ || label == "Dex"@ || label == "[Dexterity|Dex]"@ {
        Some(CoreAttribute::Dexterity)
    } else if label == "Intelligence"@ || label == "Int"@ || label == "[Intelligence|Int]"@ {
        Some(CoreAttribute::Intelligence)
    } else {
        None
    }
}

pub fn attribute_from_label(label: &str) -> (r: Option<CoreAttribute>)
    ensures
        r == attribute_of_label(label@),
{
    if same_text(label, "Strength") || same_text(label, "Str") || same_text(label, "[Strength|Str]") {
        Some(CoreAttribute::Strength)
    } else if same_text(label, "Dexterity") || same_text(label, "Dex") || same_text(
        label,
        "[Dexterity|Dex]",
    ) {
        Some(CoreAttribute::Dexterity)
    } else if same_text(label, "Intelligence") || same_text(label, "Int") || same_text(
        label,
        "[Intelligence|Int]",
    ) {
        Some(CoreAttribute::Intelligence)
    } else {
        None
    }
}

/// A threshold for each attribute that has one: a map from attribute to value.
#[derive(Debug, Clone, Copy, PartialEq, Eq, Structural)]
pub struct AttributeThresholds {
    pub strength: Option<u32>,
    pub dexterity: Option<u32>,
    pub intelligence: Option<u32>,
}

impl AttributeThresholds {
    pub open spec fn spec_get(&self, a: CoreAttribute) -> Option<u32> {
        match a {
            CoreAttribute::Strength => self.strength,
            CoreAttribute::Dexterity => self.dexterity,
            CoreAttribute::Intelligence => self.intelligence,
        }
    }

    /// How many attributes have a threshold.
    pub open spec fn spec_len(&self) -> nat {
        (if self.strength is Some { 1nat } else { 0nat }) + (if self.dexterity is Some {
            1nat
        } else {
            0nat
        }) + (if self.intelligence is Some { 1nat } else { 0nat })
    }

    /// The same thresholds with that of `a` set to `v`.
    pub open spec fn spec_with(self, a: CoreAttribute, v: u32) -> Self {
        match a {
            CoreAttribute::Strength => AttributeThresholds { strength: Some(v), ..self },
            CoreAttribute::Dexterity => AttributeThresholds { dexterity: Some(v), ..self },
            CoreAttribute::Intelligence => AttributeThresholds { intelligence: Some(v), ..self },
        }
    }

    pub fn new() -> (r: Self)
        ensures
            r == (AttributeThresholds { strength: None, dexterity: None, intelligence: None }),
            forall|a: CoreAttribute| r.spec_get(a) is None,
    {
        AttributeThresholds { strength: None, dexterity: None, intelligence: None }
    }

    pub fn get(&self, a: CoreAttribute) -> (r: Option<u32>)
        ensures
            r == self.spec_get(a),
    {
        match a {
            CoreAttribute::Strength => self.strength,
            CoreAttribute::Dexterity => self.dexterity,
            CoreAttribute::Intelligence => self.intelligence,
        }
    }

    /// Sets the threshold of `a`, replacing any earlier one.
    pub fn insert(&mut self, a: CoreAttribute, value: u32)
        ensures
            *final(self) == old(self).spec_with(a, value),
            final(self).spec_get(a) == Some(value),
            forall|b: CoreAttribute| b != a ==> final(self).spec_get(b) == old(self).spec_get(b),
    {
        match a {
            CoreAttribute::Strength => self.strength = Some(value),
            CoreAttribute::Dexterity => self.dexterity = Some(value),
            CoreAttribute::Intelligence => self.intelligence = Some(value),
        }
    }

    pub fn len(&self) -> (r: usize)
        ensures
            r == self.spec_len(),
    {
        let mut n: usize = 0;
        if self.strength.is_some() {
            n = n + 1;
        }
        if self.dexterity.is_some() {
            n = n + 1;
        }
        if self.intelligence.is_some() {
            n = n + 1;
        }
        n
    }
}

/// Requirements for using an item or modifier: the attributes it is based on, in
/// the order they were added, and the least value needed of each.
#[derive(Debug, Clone)]
pub struct StatRequirements {
    pub primary_attributes: Vec<CoreAttribute>,
    pub attribute_thresholds: AttributeThresholds,
}

/// Whether `a` holds the greatest threshold, ties going to the attribute declared first.
pub open spec fn is_dominant(t: AttributeThresholds, a: CoreAttribute) -> bool {
    &&& t.spec_get(a) is Some
    &&& forall|b: CoreAttribute| #[trigger] t.spec_get(b) is Some ==> t.spec_get(b).unwrap()
        <= t.spec_get(a).unwrap()
    &&& forall|b: CoreAttribute|
        #[trigger] t.spec_get(b) is Some && declared_rank(b) < declared_rank(a) ==> t.spec_get(
            b,
        ).unwrap() < t.spec_get(a).unwrap()
}

impl StatRequirements {
    pub fn new() -> (r: Self)
        ensures
            r.primary_attributes@ == Seq::<CoreAttribute>::empty(),
            r.attribute_thresholds == (AttributeThresholds { strength: None, dexterity: None, intelligence: None }),
            forall|a: CoreAttribute| r.attribute_thresholds.spec_get(a) is None,
    {
        Self { primary_attributes: Vec::new(), attribute_thresholds: AttributeThresholds::new() }
    }

    /// Adds `attr` to the primary attributes and sets its threshold.
    pub fn add_requirement(&mut self, attr: CoreAttribute, threshold: u32)
        ensures
            final(self).primary_attributes@ == old(self).primary_attributes@.push(attr),
            final(self).attribute_thresholds == old(self).attribute_thresholds.spec_with(attr, threshold),
            final(self).attribute_thresholds.spec_get(attr) == Some(threshold),
            forall|b: CoreAttribute|
                b != attr ==> final(self).attribute_thresholds.spec_get(b)
                    == old(self).attribute_thresholds.spec_get(b),
    {
        self.primary_attributes.push(attr);
        self.attribute_thresholds.insert(attr, threshold);
    }

    /// Based on exactly one attribute.
    pub fn is_pure_requirement(&self) -> (r: bool)
        ensures
            r == (self.primary_attributes@.len() == 1),
    {
        self.primary_attributes.len() == 1
    }

    /// Based on more than one attribute.
    pub fn is_hybrid_requirement(&self) -> (r: bool)
        ensures
            r == (self.primary_attributes@.len() > 1),
    {
        self.primary_attributes.len() > 1
    }

    /// The attribute with the highest threshold; of equal thresholds, Strength comes
    /// before Dexterity, and Dexterity before Intelligence.
    pub fn get_dominant_attribute(&self) -> (r: Option<CoreAttribute>)
        ensures
            r is None <==> forall|a: CoreAttribute| self.attribute_thresholds.spec_get(a) is None,
            r matches Some(a) ==> is_dominant(self.attribute_thresholds, a),
    {
        let t = &self.attribute_thresholds;
        let mut best: Option<(CoreAttribute, u32)> = None;
        if let Some(v) = t.strength {
            best = Some((CoreAttribute::Strength, v));
        }
        if let Some(v) = t.dexterity {
            match best {
                Some((_, b)) => {
                    if v > b {
                        best = Some((CoreAttribute::Dexterity, v));
                    }
                },
                None => {
                    best = Some((CoreAttribute::Dexterity, v));
                },
            }
        }
        if let Some(v) = t.intelligence {
            match best {
                Some((_, b)) => {
                    if v > b {
                        best = Some((CoreAttribute::Intelligence, v));
                    }
                },
                None => {
                    best = Some((CoreAttribute::Intelligence, v));
                },
            }
        }
        match best {
            Some((a, _)) => {
                assert(t.spec_get(a) is Some);
                Some(a)
            },
            None => None,
        }
    }
}

/// What a modifier needs of an item, and the attribute it scales with.
#[derive(Debug, Clone)]
pub struct ModifierStatRequirements {
    pub requirements: StatRequirements,
    pub scaling_attribute: Option<CoreAttribute>,
    pub is_hybrid: bool,
}

pub open spec fn abbreviation(a: CoreAttribute) -> Seq<char> {
    match a {
        CoreAttribute::Strength => "Str"@,
        CoreAttribute::Dexterity => "Dex"@,
        CoreAttribute::Intelligence => "Int"@,
    }
}

/// The short names of the attributes, joined by `/`.
pub open spec fn profile_of(attrs: Seq<CoreAttribute>) -> Seq<char>
    decreases attrs.len(),
{
    if attrs.len() == 0 {
        Seq::empty()
    } else if attrs.len() == 1 {
        abbreviation(attrs[0])
    } else {
        profile_of(attrs.drop_last()) + "/"@ + abbreviation(attrs.last())
    }
}

fn abbreviate(a: CoreAttribute) -> (r: &'static str)
    ensures
        r@ == abbreviation(a),
{
    match a {
        CoreAttribute::Strength => "Str",
        CoreAttribute::Dexterity => "Dex",
        CoreAttribute::Intelligence => "Int",
    }
}

/// A base item type with the attribute requirements it carries.
#[derive(Debug, Clone)]
pub struct ItemBaseType {
    pub name: String,
    pub category: ItemCategory,
    pub stat_requirements: StatRequirements,
    pub implicit_modifiers: Vec<String>,
    pub base_level: u32,
    pub tags: Vec<String>,
}

impl ItemBaseType {
    pub fn new(name: String, category: ItemCategory) -> (r: Self)
        ensures
            r.name@ == name@,
            r.category == category,
            r.stat_requirements.primary_attributes@.len() == 0,
            r.stat_requirements.attribute_thresholds == (AttributeThresholds { strength: None, dexterity: None, intelligence: None }),
            forall|a: CoreAttribute| r.stat_requirements.attribute_thresholds.spec_get(a) is None,
            r.implicit_modifiers@.len() == 0,
            r.base_level == 1,
            r.tags@.len() == 0,
    {
        Self {
            name,
            category,
            stat_requirements: StatRequirements::new(),
            implicit_modifiers: Vec::new(),
            base_level: 1,
            tags: Vec::new(),
        }
    }

    /// The primary attributes as short names joined by `/`, such as `Str/Dex`.
    pub fn get_attribute_profile(&self) -> (r: String)
        ensures
            r@ == profile_of(self.stat_requirements.primary_attributes@),
    {
        let attrs = &self.stat_requirements.primary_attributes;
        let mut out = String::new();
        let mut i: usize = 0;
        while i < attrs.len()
            invariant
                i <= attrs@.len(),
                out@ == profile_of(attrs@.take(i as int)),
            decreases attrs@.len() - i,
        {
            assert(attrs@.take(i as int + 1).drop_last() =~= attrs@.take(i as int));
            if i > 0 {
                out.append("/");
            }
            out.append(abbreviate(attrs[i]));
            i = i + 1;
        }
        assert(attrs@.take(i as int) =~= attrs@);
        out
    }
}

/// The base named `n`: the last one of that name in the list.
pub open spec fn base_named(bases: Seq<ItemBaseType>, n: Seq<char>) -> Option<ItemBaseType>
    decreases bases.len(),
{
    if bases.len() == 0 {
        None
    } else if bases.last().name@ == n {
        Some(bases.last())
    } else {
        base_named(bases.drop_last(), n)
    }
}

pub open spec fn base_names_unique(bases: Seq<ItemBaseType>) -> bool {
    forall|i: int, j: int| 0 <= i < j < bases.len() ==> #[trigger] bases[i].name@ != #[trigger] bases[j].name@
}

/// Whether every primary attribute of `base` is among `attrs`.
pub open spec fn uses_only(base: ItemBaseType, attrs: Seq<CoreAttribute>) -> bool {
    forall|k: int| 0 <= k < base.stat_requirements.primary_attributes@.len() ==> attrs.contains(
        #[trigger] base.stat_requirements.primary_attributes@[k],
    )
}

proof fn lemma_base_absent(bases: Seq<ItemBaseType>, n: Seq<char>)
    requires
        forall|k: int| 0 <= k < bases.len() ==> #[trigger] bases[k].name@ != n,
    ensures
        base_named(bases, n) is None,
    decreases bases.len(),
{
    if bases.len() > 0 {
        let t = bases.drop_last();
        assert forall|k: int| 0 <= k < t.len() implies #[trigger] t[k].name@ != n by {
            assert(t[k] == bases[k]);
        }
        lemma_base_absent(t, n);
        assert(bases.last() == bases[bases.len() - 1]);
    }
}

proof fn lemma_base_at(bases: Seq<ItemBaseType>, i: int)
    requires
        base_names_unique(bases),
        0 <= i < bases.len(),
    ensures
        base_named(bases, bases[i].name@) == Some(bases[i]),
    decreases bases.len(),
{
    if i < bases.len() - 1 {
        let t = bases.drop_last();
        assert(base_names_unique(t)) by {
            assert forall|x: int, y: int| 0 <= x < y < t.len() implies #[trigger] t[x].name@ != #[trigger] t[y].name@ by {
                assert(t[x] == bases[x] && t[y] == bases[y]);
            }
        }
        assert(t[i] == bases[i]);
        lemma_base_at(t, i);
        assert(bases.last() == bases[bases.len() - 1]);
    }
}

proof fn lemma_base_update(bases: Seq<ItemBaseType>, i: int, e: ItemBaseType, n: Seq<char>)
    requires
        0 <= i < bases.len(),
        e.name@ == bases[i].name@,
        n != e.name@,
    ensures
        base_named(bases.update(i, e), n) == base_named(bases, n),
    decreases bases.len(),
{
    let u = bases.update(i, e);
    if i == bases.len() - 1 {
        assert(u.drop_last() =~= bases.drop_last());
    } else {
        assert(u.drop_last() =~= bases.drop_last().update(i, e));
        lemma_base_update(bases.drop_last(), i, e, n);
    }
}

/// How many times attribute `a` is listed among the primary attributes of the bases.
pub open spec fn attribute_listings(bases: Seq<ItemBaseType>, a: CoreAttribute) -> nat
    decreases bases.len(),
{
    if bases.len() == 0 {
        0
    } else {
        attribute_listings(bases.drop_last(), a) + times_listed(bases.last().stat_requirements.primary_attributes@, a)
    }
}

/// How many times `a` occurs in `s`.
pub open spec fn times_listed(s: Seq<CoreAttribute>, a: CoreAttribute) -> nat
    decreases s.len(),
{
    if s.len() == 0 {
        0
    } else {
        times_listed(s.drop_last(), a) + if s.last() == a { 1nat } else { 0nat }
    }
}

/// Base item types by name.
pub struct ItemBaseDatabase {
    bases: Vec<ItemBaseType>,
}

impl ItemBaseDatabase {
    /// The bases held, one per name, in order of first insertion.
    pub closed spec fn spec_bases(&self) -> Seq<ItemBaseType> {
        self.bases@
    }

    pub closed spec fn wf(&self) -> bool {
        base_names_unique(self.bases@)
    }

    pub fn new() -> (r: Self)
        ensures
            r.wf(),
            r.spec_bases() == Seq::<ItemBaseType>::empty(),
    {
        Self { bases: Vec::new() }
    }

    /// Adds `base`, replacing a base of the same name.
    pub fn add_base(&mut self, base: ItemBaseType)
        requires
            old(self).wf(),
        ensures
            final(self).wf(),
            base_named(final(self).spec_bases(), base.name@) == Some(base),
            forall|n: Seq<char>| n != base.name@ ==> #[trigger] base_named(final(self).spec_bases(), n)
                == base_named(old(self).spec_bases(), n),
    {
        let ghost start = self.bases@;
        let ghost b = base;
        let mut i: usize = 0;
        while i < self.bases.len() && self.bases[i].name != base.name
            invariant
                i <= self.bases@.len(),
                self.bases@ == start,
                forall|k: int| 0 <= k < i ==> #[trigger] start[k].name@ != base.name@,
            decreases self.bases@.len() - i,
        {
            i = i + 1;
        }
        if i == self.bases.len() {
            self.bases.push(base);
            proof {
                let u = self.bases@;
                assert(u.drop_last() =~= start);
                assert forall|x: int, y: int| 0 <= x < y < u.len() implies #[trigger] u[x].name@ != #[trigger] u[y].name@ by {
                    if y == u.len() - 1 {
                        assert(u[x] == start[x]);
                    } else {
                        assert(u[x] == start[x] && u[y] == start[y]);
                    }
                }
            }
        } else {
            self.bases.set(i, base);
            proof {
                let u = self.bases@;
                assert(u =~= start.update(i as int, b));
                assert forall|x: int, y: int| 0 <= x < y < u.len() implies #[trigger] u[x].name@ != #[trigger] u[y].name@ by {
                    assert(x != i ==> u[x] == start[x]);
                    assert(y != i ==> u[y] == start[y]);
                }
                lemma_base_at(u, i as int);
                assert forall|n: Seq<char>| n != b.name@ implies #[trigger] base_named(u, n) == base_named(start, n) by {
                    lemma_base_update(start, i as int, b, n);
                }
            }
        }
    }

    /// The base named `name`.
    pub fn get_base(&self, name: &str) -> (r: Option<&ItemBaseType>)
        requires
            self.wf(),
        ensures
            match r {
                Some(b) => base_named(self.spec_bases(), name@) == Some(*b),
                None => base_named(self.spec_bases(), name@) is None,
            },
    {
        let mut i: usize = 0;
        while i < self.bases.len()
            invariant
                self.wf(),
                i <= self.bases@.len(),
                forall|k: int| 0 <= k < i ==> #[trigger] self.bases@[k].name@ != name@,
            decreases self.bases@.len() - i,
        {
            if same_text(self.bases[i].name.as_str(), name) {
                proof {
                    lemma_base_at(self.bases@, i as int);
                }
                return Some(&self.bases[i]);
            }
            i = i + 1;
        }
        proof {
            lemma_base_absent(self.bases@, name@);
        }
        None
    }

    /// The bases that list `attr` among their primary attributes, in storage order.
    pub fn get_bases_with_attribute(&self, attr: CoreAttribute) -> (r: Vec<&ItemBaseType>)
        ensures
            r@.map_values(|b: &ItemBaseType| *b) == self.spec_bases().filter(
                |b: ItemBaseType| b.stat_requirements.primary_attributes@.contains(attr),
            ),
    {
        let ghost keep = |b: ItemBaseType| b.stat_requirements.primary_attributes@.contains(attr);
        let mut r: Vec<&ItemBaseType> = Vec::new();
        let mut i: usize = 0;
        while i < self.bases.len()
            invariant
                i <= self.bases@.len(),
                keep == (|b: ItemBaseType| b.stat_requirements.primary_attributes@.contains(attr)),
                r@.map_values(|b: &ItemBaseType| *b) == self.bases@.take(i as int).filter(keep),
            decreases self.bases@.len() - i,
        {
            proof {
                reveal(Seq::filter);
                assert(self.bases@.take(i as int + 1).drop_last() =~= self.bases@.take(i as int));
                assert(self.bases@.take(i as int + 1).last() == self.bases@[i as int]);
            }
            let b = &self.bases[i];
            let prim = &b.stat_requirements.primary_attributes;
            let mut found = false;
            let mut k: usize = 0;
            while k < prim.len()
                invariant
                    k <= prim@.len(),
                    found == (exists|q: int| 0 <= q < k && prim@[q] == attr),
                decreases prim@.len() - k,
            {
                if prim[k] == attr {
                    found = true;
                }
                k = k + 1;
            }
            proof {
                if found {
                    let q = choose|q: int| 0 <= q < k && prim@[q] == attr;
                    assert(prim@.contains(attr));
                }
            }
            if found {
                let ghost before = r@;
                r.push(b);
                assert(r@.map_values(|b: &ItemBaseType| *b) =~= before.map_values(|b: &ItemBaseType| *b).push(*b));
                assert(self.bases@.take(i as int + 1).filter(keep) =~= self.bases@.take(i as int).filter(keep).push(*b));
            } else {
                assert(self.bases@.take(i as int + 1).filter(keep) =~= self.bases@.take(i as int).filter(keep));
            }
            i = i + 1;
        }
        assert(self.bases@.take(i as int) =~= self.bases@);
        r
    }

    /// How many bases are of category `c`.
    pub fn category_count(&self, c: ItemCategory) -> (r: usize)
        ensures
            r == self.spec_bases().filter(|b: ItemBaseType| b.category == c).len(),
    {
        let ghost keep = |b: ItemBaseType| b.category == c;
        let mut n: usize = 0;
        let mut i: usize = 0;
        while i < self.bases.len()
            invariant
                i <= self.bases@.len(),
                keep == (|b: ItemBaseType| b.category == c),
                n == self.bases@.take(i as int).filter(keep).len(),
                n <= i,
            decreases self.bases@.len() - i,
        {
            proof {
                reveal(Seq::filter);
                assert(self.bases@.take(i as int + 1).drop_last() =~= self.bases@.take(i as int));
                assert(self.bases@.take(i as int + 1).last() == self.bases@[i as int]);
            }
            if self.bases[i].category == c {
                n = n + 1;
            }
            i = i + 1;
        }
        assert(self.bases@.take(i as int) =~= self.bases@);
        n
    }

    /// How many times `a` is listed among the primary attributes of the bases.
    pub fn attribute_count(&self, a: CoreAttribute) -> (r: u128)
        ensures
            r == attribute_listings(self.spec_bases(), a),
    {
        let mut n: u128 = 0;
        let mut i: usize = 0;
        while i < self.bases.len()
            invariant
                i <= self.bases@.len(),
                n == attribute_listings(self.bases@.take(i as int), a),
                n <= i * (usize::MAX as nat),
            decreases self.bases@.len() - i,
        {
            assert(self.bases@.take(i as int + 1).drop_last() =~= self.bases@.take(i as int));
            assert(self.bases@.take(i as int + 1).last() == self.bases@[i as int]);
            let prim = &self.bases[i].stat_requirements.primary_attributes;
            let mut k: usize = 0;
            let mut m: usize = 0;
            while k < prim.len()
                invariant
                    k <= prim@.len(),
                    m == times_listed(prim@.take(k as int), a),
                    m <= k,
                decreases prim@.len() - k,
            {
                proof {
                    assert(prim@.take(k as int + 1).drop_last() =~= prim@.take(k as int));
                    assert(prim@.take(k as int + 1).last() == prim@[k as int]);
                }
                if prim[k] == a {
                    m = m + 1;
                }
                k = k + 1;
            }
            assert(prim@.take(k as int) =~= prim@);
            assert(n + m <= (i + 1) * (usize::MAX as nat)) by (nonlinear_arith)
                requires
                    n <= i * (usize::MAX as nat),
                    m <= usize::MAX,
            ;
            assert((i + 1) * (usize::MAX as nat) <= u64::MAX * u64::MAX) by (nonlinear_arith)
                requires
                    i < usize::MAX,
                    usize::MAX <= u64::MAX,
            ;
            n = n + m as u128;
            i = i + 1;
        }
        assert(self.bases@.take(i as int) =~= self.bases@);
        n
    }

    /// How many bases the catalog holds.
    pub fn len(&self) -> (r: usize)
        ensures
            r == self.spec_bases().len(),
    {
        self.bases.len()
    }

    /// The bases, in storage order.
    pub fn bases(&self) -> (r: &Vec<ItemBaseType>)
        ensures
            r@ == self.spec_bases(),
    {
        &self.bases
    }

    /// The bases whose primary attributes are all among `attrs`, in storage order.
    pub fn get_bases_by_attributes(&self, attrs: &[CoreAttribute]) -> (r: Vec<&ItemBaseType>)
        ensures
            r@.map_values(|b: &ItemBaseType| *b) == self.spec_bases().filter(|b: ItemBaseType| uses_only(b, attrs@)),
    {
        let ghost keep = |b: ItemBaseType| uses_only(b, attrs@);
        let mut r: Vec<&ItemBaseType> = Vec::new();
        let mut i: usize = 0;
        while i < self.bases.len()
            invariant
                i <= self.bases@.len(),
                keep == (|b: ItemBaseType| uses_only(b, attrs@)),
                r@.map_values(|b: &ItemBaseType| *b) == self.bases@.take(i as int).filter(keep),
            decreases self.bases@.len() - i,
        {
            proof {
                reveal(Seq::filter);
                assert(self.bases@.take(i as int + 1).drop_last() =~= self.bases@.take(i as int));
                assert(self.bases@.take(i as int + 1).last() == self.bases@[i as int]);
            }
            let b = &self.bases[i];
            let prim = &b.stat_requirements.primary_attributes;
            let mut all = true;
            let mut k: usize = 0;
            while k < prim.len()
                invariant
                    k <= prim@.len(),
                    all == (forall|q: int| 0 <= q < k ==> attrs@.contains(#[trigger] prim@[q])),
                decreases prim@.len() - k,
            {
                let mut found = false;
                let mut j: usize = 0;
                while j < attrs.len()
                    invariant
                        j <= attrs@.len(),
                        k < prim@.len(),
                        found == (exists|q: int| 0 <= q < j && attrs@[q] == prim@[k as int]),
                    decreases attrs@.len() - j,
                {
                    if attrs[j] == prim[k] {
                        found = true;
                    }
                    j = j + 1;
                }
                proof {
                    if found {
                        let q = choose|q: int| 0 <= q < j && attrs@[q] == prim@[k as int];
                        assert(attrs@.contains(prim@[k as int]));
                    } else {
                        assert(!attrs@.contains(prim@[k as int]));
                    }
                }
                all = all && found;
                k = k + 1;
            }
            if all {
                let ghost before = r@;
                r.push(b);
                assert(r@.map_values(|b: &ItemBaseType| *b) =~= before.map_values(|b: &ItemBaseType| *b).push(*b));
                assert(self.bases@.take(i as int + 1).filter(keep) =~= self.bases@.take(i as int).filter(keep).push(*b));
            } else {
                assert(self.bases@.take(i as int + 1).filter(keep) =~= self.bases@.take(i as int).filter(keep));
            }
            i = i + 1;
        }
        assert(self.bases@.take(i as int) =~= self.bases@);
        r
    }
}

} // verus!
