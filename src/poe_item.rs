//! Listings as the marketplace delivers them, before they are made canonical.
use vstd::prelude::*;
use crate::numeric::{amount_of_text, i32_of_text, parse_amount, parse_i32, parse_u32, u32_of_text};
use crate::stat_requirements::{attribute_from_label, attribute_of_label, AttributeThresholds, CoreAttribute};

verus! {

/// One roll of a modifier; `min` and `max` are decimal text.
#[derive(Debug, Clone)]
pub struct Magnitude {
    pub hash: String,
    pub min: String,
    pub max: String,
}

/// A modifier as listed: its name, its tier and its rolls.
#[derive(Debug, Clone)]
pub struct ModBase {
    pub name: String,
    pub tier: String,
    pub magnitudes: Vec<Magnitude>,
}

/// The value of a modifier: its first roll's `min`, as an amount.
pub open spec fn mod_value(m: ModBase) -> Option<i64> {
    if m.magnitudes@.len() > 0 {
        amount_of_text(m.magnitudes@[0].min@)
    } else {
        None
    }
}

impl ModBase {
    pub fn get_name(&self) -> (r: &String)
        ensures
            r@ == self.name@,
    {
        &self.name
    }

    pub fn get_tier(&self) -> (r: &String)
        ensures
            r@ == self.tier@,
    {
        &self.tier
    }

    /// The first roll's `min` in thousandths, if there is a roll and it is a number.
    pub fn get_value(&self) -> (r: Option<i64>)
        ensures
            r == mod_value(*self),
    {
        if self.magnitudes.len() > 0 {
            parse_amount(self.magnitudes[0].min.as_str())
        } else {
            None
        }
    }
}

#[derive(Debug, Clone)]
pub struct ModInfo {
    pub base: ModBase,
}

#[derive(Debug, Clone)]
pub struct ExplicitMod {
    pub base: ModBase,
    pub level: u32,
}

#[derive(Debug, Clone)]
pub struct HashData {
    pub explicit: Vec<(String, Vec<i32>)>,
}

#[derive(Debug, Clone)]
pub struct ModData {
    pub explicit: Vec<ModInfo>,
}

#[derive(Debug, Clone)]
pub struct ExtendedData {
    pub mods: ModData,
    pub hashes: HashData,
}

/// A labelled requirement; the first value's text holds the number.
#[derive(Debug, Clone)]
pub struct Requirement {
    pub name: String,
    pub values: Vec<(String, i32)>,
    pub display_mode: i32,
}

#[derive(Debug, Clone)]
pub struct Property {
    pub name: String,
    pub values: Vec<(String, i32)>,
    pub display_mode: i32,
}

#[derive(Debug, Clone)]
pub struct ItemData {
    pub base_type: String,
    pub name: String,
    pub explicit_mods: Vec<String>,
    pub extended: ExtendedData,
    pub frame_type: i32,
    pub requirements: Vec<Requirement>,
    pub properties: Vec<Property>,
    pub rarity: String,
    pub type_line: String,
    pub ilvl: u32,
}

/// An asking price; `amount` is the listed number as text.
#[derive(Debug, Clone)]
pub struct Price {
    pub amount: String,
    pub currency: String,
}

#[derive(Debug, Clone)]
pub struct Account {
    pub name: String,
    pub realm: String,
}

#[derive(Debug, Clone)]
pub struct ListingData {
    pub price: Option<Price>,
    pub account: Account,
}

#[derive(Debug, Clone)]
pub struct ItemResponse {
    pub id: String,
    pub item: ItemData,
    pub listing: ListingData,
}

/// The threshold a requirement states: its label names an attribute and its first
/// value is an unsigned number.
pub open spec fn requirement_threshold(r: Requirement) -> Option<(CoreAttribute, u32)> {
    if r.values@.len() > 0 && attribute_of_label(r.name@) is Some && u32_of_text(r.values@[0].0@) is Some {
        Some((attribute_of_label(r.name@).unwrap(), u32_of_text(r.values@[0].0@).unwrap()))
    } else {
        None
    }
}

/// The attribute thresholds of a list of requirements: the first requirement of an
/// attribute counts, later ones of the same attribute and requirements that state
/// no threshold are dropped.
pub open spec fn thresholds_of(reqs: Seq<Requirement>) -> AttributeThresholds
    decreases reqs.len(),
{
    if reqs.len() == 0 {
        AttributeThresholds { strength: None, dexterity: None, intelligence: None }
    } else {
        let t = thresholds_of(reqs.drop_last());
        match requirement_threshold(reqs.last()) {
            Some((a, v)) => if t.spec_get(a) is None {
                t.spec_with(a, v)
            } else {
                t
            },
            None => t,
        }
    }
}

pub fn requirement_threshold_of(r: &Requirement) -> (out: Option<(CoreAttribute, u32)>)
    ensures
        out == requirement_threshold(*r),
{
    if r.values.len() == 0 {
        return None;
    }
    match attribute_from_label(r.name.as_str()) {
        Some(a) => match parse_u32(r.values[0].0.as_str()) {
            Some(v) => Some((a, v)),
            None => None,
        },
        None => None,
    }
}

/// Collects the attribute thresholds that a list of requirements states.
pub fn collect_thresholds(reqs: &Vec<Requirement>) -> (t: AttributeThresholds)
    ensures
        t == thresholds_of(reqs@),
{
    let mut t = AttributeThresholds::new();
    let mut i: usize = 0;
    while i < reqs.len()
        invariant
            i <= reqs@.len(),
            t == thresholds_of(reqs@.take(i as int)),
        decreases reqs@.len() - i,
    {
        assert(reqs@.take(i as int + 1).drop_last() =~= reqs@.take(i as int));
        assert(reqs@.take(i as int + 1).last() == reqs@[i as int]);
        match requirement_threshold_of(&reqs[i]) {
            Some((a, v)) => {
                if t.get(a).is_none() {
                    t.insert(a, v);
                }
            },
            None => {},
        }
        i = i + 1;
    }
    assert(reqs@.take(i as int) =~= reqs@);
    t
}

/// The value of a labelled entry: its first value parsed as an `i32`, `0` when it
/// is not a number.
pub open spec fn property_value(p: Property) -> i32 {
    match i32_of_text(p.values@[0].0@) {
        Some(v) => v,
        None => 0,
    }
}

pub open spec fn valued_properties(ps: Seq<Property>) -> Seq<Property> {
    ps.filter(|p: Property| p.values@.len() > 0)
}

pub open spec fn rolled_mods(ms: Seq<ModInfo>) -> Seq<ModInfo> {
    ms.filter(|m: ModInfo| m.base.magnitudes@.len() > 0)
}

pub open spec fn value_or_zero(m: ModInfo) -> i64 {
    match mod_value(m.base) {
        Some(v) => v,
        None => 0,
    }
}

impl ItemResponse {
    /// Each property that has a value, with that value; `0` stands for text that is
    /// not a number.
    pub fn get_stat_values(&self) -> (r: Vec<(String, i32)>)
        ensures
            r@.len() == valued_properties(self.item.properties@).len(),
            forall|i: int| 0 <= i < r@.len() ==> (#[trigger] r@[i]).0@ == valued_properties(self.item.properties@)[i].name@
                && r@[i].1 == property_value(valued_properties(self.item.properties@)[i]),
    {
        let props = &self.item.properties;
        let ghost keep = |p: Property| p.values@.len() > 0;
        let mut r: Vec<(String, i32)> = Vec::new();
        let mut i: usize = 0;
        while i < props.len()
            invariant
                i <= props@.len(),
                keep == (|p: Property| p.values@.len() > 0),
                r@.len() == valued_properties(props@.take(i as int)).len(),
                forall|j: int| 0 <= j < r@.len() ==> (#[trigger] r@[j]).0@ == valued_properties(props@.take(i as int))[j].name@
                    && r@[j].1 == property_value(valued_properties(props@.take(i as int))[j]),
            decreases props@.len() - i,
        {
            proof {
                reveal(Seq::filter);
                assert(props@.take(i as int + 1).drop_last() =~= props@.take(i as int));
                assert(props@.take(i as int + 1).last() == props@[i as int]);
            }
            let p = &props[i];
            if p.values.len() > 0 {
                let v = match parse_i32(p.values[0].0.as_str()) {
                    Some(v) => v,
                    None => 0,
                };
                r.push((p.name.clone(), v));
                assert(valued_properties(props@.take(i as int + 1)) =~= valued_properties(props@.take(i as int)).push(*p));
            } else {
                assert(valued_properties(props@.take(i as int + 1)) =~= valued_properties(props@.take(i as int)));
            }
            i = i + 1;
        }
        assert(props@.take(i as int) =~= props@);
        assert(valued_properties(props@.take(i as int)) == valued_properties(self.item.properties@));
        r
    }

    /// The attribute thresholds the listing's requirements state.
    pub fn get_stat_requirements(&self) -> (r: AttributeThresholds)
        ensures
            r == thresholds_of(self.item.requirements@),
    {
        collect_thresholds(&self.item.requirements)
    }

    /// Each explicit modifier that has a roll, with its value; `0` stands for a roll
    /// that is not a number.
    pub fn get_explicit_mod_values(&self) -> (r: Vec<(String, i64)>)
        ensures
            r@.len() == rolled_mods(self.item.extended.mods.explicit@).len(),
            forall|i: int| 0 <= i < r@.len() ==> (#[trigger] r@[i]).0@ == rolled_mods(self.item.extended.mods.explicit@)[i].base.name@
                && r@[i].1 == value_or_zero(rolled_mods(self.item.extended.mods.explicit@)[i]),
    {
        let mods = &self.item.extended.mods.explicit;
        let ghost keep = |m: ModInfo| m.base.magnitudes@.len() > 0;
        let mut r: Vec<(String, i64)> = Vec::new();
        let mut i: usize = 0;
        while i < mods.len()
            invariant
                i <= mods@.len(),
                keep == (|m: ModInfo| m.base.magnitudes@.len() > 0),
                r@.len() == rolled_mods(mods@.take(i as int)).len(),
                forall|j: int| 0 <= j < r@.len() ==> (#[trigger] r@[j]).0@ == rolled_mods(mods@.take(i as int))[j].base.name@
                    && r@[j].1 == value_or_zero(rolled_mods(mods@.take(i as int))[j]),
            decreases mods@.len() - i,
        {
            proof {
                reveal(Seq::filter);
                assert(mods@.take(i as int + 1).drop_last() =~= mods@.take(i as int));
                assert(mods@.take(i as int + 1).last() == mods@[i as int]);
            }
            let m = &mods[i];
            if m.base.magnitudes.len() > 0 {
                let v = match m.base.get_value() {
                    Some(v) => v,
                    None => 0,
                };
                r.push((m.base.name.clone(), v));
                assert(rolled_mods(mods@.take(i as int + 1)) =~= rolled_mods(mods@.take(i as int)).push(*m));
            } else {
                assert(rolled_mods(mods@.take(i as int + 1)) =~= rolled_mods(mods@.take(i as int)));
            }
            i = i + 1;
        }
        assert(mods@.take(i as int) =~= mods@);
        assert(rolled_mods(mods@.take(i as int)) == rolled_mods(self.item.extended.mods.explicit@));
        r
    }
}

} // verus!
