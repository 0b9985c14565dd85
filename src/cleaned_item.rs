//! A listing reduced to the fields the analysis reads.
use vstd::prelude::*;
use crate::numeric::{parse_u32, u32_of_text};
use crate::poe_item::{
    collect_thresholds, thresholds_of, requirement_threshold, ItemResponse, Magnitude, ModBase,
    ModInfo as ListedMod, Property, Requirement,
};
pub use crate::poe_item::ExplicitMod;
use crate::stat_requirements::AttributeThresholds;

verus! {

/// A property keeps the shape it has in a listing.
pub type ItemProperty = Property;

/// A requirement keeps the shape it has in a listing.
pub type ItemRequirement = Requirement;

#[derive(Debug, Clone)]
pub struct ModInfo {
    pub explicit: Vec<ExplicitMod>,
}

#[derive(Debug, Clone)]
pub struct CleanedItem {
    pub base_type: String,
    pub name: String,
    pub explicit_mods: Vec<String>,
    pub item_level: u32,
    pub properties: Vec<ItemProperty>,
    pub requirements: Vec<ItemRequirement>,
    pub mod_info: ModInfo,
    pub mod_hashes: Vec<(String, Vec<Vec<i32>>)>,
}

/// What a requirement or property reads as: its label, its values, its display mode.
pub open spec fn requirement_view(r: Requirement) -> (Seq<char>, Seq<(String, i32)>, i32) {
    (r.name@, r.values@, r.display_mode)
}

pub open spec fn property_view(p: Property) -> (Seq<char>, Seq<(String, i32)>, i32) {
    (p.name@, p.values@, p.display_mode)
}

/// The level a modifier gets: its first roll's `min` as an unsigned number, else `0`.
pub open spec fn mod_level(m: ModBase) -> u32 {
    if m.magnitudes@.len() > 0 {
        match u32_of_text(m.magnitudes@[0].min@) {
            Some(v) => v,
            None => 0,
        }
    } else {
        0
    }
}

/// `e` is the cleaned form of the listed modifier `m`.
pub open spec fn cleans_mod(e: ExplicitMod, m: ListedMod) -> bool {
    &&& e.base.name@ == m.base.name@
    &&& e.base.tier@ == m.base.tier@
    &&& e.base.magnitudes@ == m.base.magnitudes@
    &&& e.level == mod_level(m.base)
}

pub open spec fn mod_names(mods: Seq<ExplicitMod>) -> Seq<Seq<char>> {
    mods.map_values(|m: ExplicitMod| m.base.name@)
}

fn copy_pairs(v: &Vec<(String, i32)>) -> (r: Vec<(String, i32)>)
    ensures
        r@ == v@,
{
    let mut r: Vec<(String, i32)> = Vec::new();
    let mut i: usize = 0;
    while i < v.len()
        invariant
            i <= v@.len(),
            r@ == v@.take(i as int),
        decreases v@.len() - i,
    {
        r.push((v[i].0.clone(), v[i].1));
        assert(v@.take(i as int + 1) =~= v@.take(i as int).push(v@[i as int]));
        i = i + 1;
    }
    assert(v@.take(i as int) =~= v@);
    r
}

fn copy_requirements(v: &Vec<Requirement>) -> (r: Vec<Requirement>)
    ensures
        r@.len() == v@.len(),
        forall|i: int| 0 <= i < v@.len() ==> requirement_view(#[trigger] r@[i]) == requirement_view(v@[i]),
{
    let mut r: Vec<Requirement> = Vec::new();
    let mut i: usize = 0;
    while i < v.len()
        invariant
            i <= v@.len(),
            r@.len() == i,
            forall|k: int| 0 <= k < i ==> requirement_view(#[trigger] r@[k]) == requirement_view(v@[k]),
        decreases v@.len() - i,
    {
        r.push(Requirement { name: v[i].name.clone(), values: copy_pairs(&v[i].values), display_mode: v[i].display_mode });
        i = i + 1;
    }
    r
}

fn copy_properties(v: &Vec<Property>) -> (r: Vec<Property>)
    ensures
        r@.len() == v@.len(),
        forall|i: int| 0 <= i < v@.len() ==> property_view(#[trigger] r@[i]) == property_view(v@[i]),
{
    let mut r: Vec<Property> = Vec::new();
    let mut i: usize = 0;
    while i < v.len()
        invariant
            i <= v@.len(),
            r@.len() == i,
            forall|k: int| 0 <= k < i ==> property_view(#[trigger] r@[k]) == property_view(v@[k]),
        decreases v@.len() - i,
    {
        r.push(Property { name: v[i].name.clone(), values: copy_pairs(&v[i].values), display_mode: v[i].display_mode });
        i = i + 1;
    }
    r
}

fn copy_magnitudes(v: &Vec<Magnitude>) -> (r: Vec<Magnitude>)
    ensures
        r@ == v@,
{
    let mut r: Vec<Magnitude> = Vec::new();
    let mut i: usize = 0;
    while i < v.len()
        invariant
            i <= v@.len(),
            r@ == v@.take(i as int),
        decreases v@.len() - i,
    {
        r.push(Magnitude { hash: v[i].hash.clone(), min: v[i].min.clone(), max: v[i].max.clone() });
        assert(v@.take(i as int + 1) =~= v@.take(i as int).push(v@[i as int]));
        i = i + 1;
    }
    assert(v@.take(i as int) =~= v@);
    r
}

fn copy_strings(v: &Vec<String>) -> (r: Vec<String>)
    ensures
        r@ == v@,
{
    let mut r: Vec<String> = Vec::new();
    let mut i: usize = 0;
    while i < v.len()
        invariant
            i <= v@.len(),
            r@ == v@.take(i as int),
        decreases v@.len() - i,
    {
        r.push(v[i].clone());
        assert(v@.take(i as int + 1) =~= v@.take(i as int).push(v@[i as int]));
        i = i + 1;
    }
    assert(v@.take(i as int) =~= v@);
    r
}

fn copy_ints(v: &Vec<i32>) -> (r: Vec<i32>)
    ensures
        r@ == v@,
{
    let mut r: Vec<i32> = Vec::new();
    let mut i: usize = 0;
    while i < v.len()
        invariant
            i <= v@.len(),
            r@ == v@.take(i as int),
        decreases v@.len() - i,
    {
        r.push(v[i]);
        assert(v@.take(i as int + 1) =~= v@.take(i as int).push(v@[i as int]));
        i = i + 1;
    }
    assert(v@.take(i as int) =~= v@);
    r
}

fn level_of(m: &ModBase) -> (r: u32)
    ensures
        r == mod_level(*m),
{
    if m.magnitudes.len() > 0 {
        match parse_u32(m.magnitudes[0].min.as_str()) {
            Some(v) => v,
            None => 0,
        }
    } else {
        0
    }
}

/// Requirements that read the same state the same thresholds.
pub proof fn lemma_same_thresholds(a: Seq<Requirement>, b: Seq<Requirement>)
    requires
        a.len() == b.len(),
        forall|i: int| 0 <= i < a.len() ==> requirement_view(#[trigger] a[i]) == requirement_view(b[i]),
    ensures
        thresholds_of(a) == thresholds_of(b),
    decreases a.len(),
{
    if a.len() > 0 {
        assert forall|i: int| 0 <= i < a.len() - 1 implies requirement_view(#[trigger] a.drop_last()[i]) == requirement_view(b.drop_last()[i]) by {
            assert(a.drop_last()[i] == a[i] && b.drop_last()[i] == b[i]);
        }
        lemma_same_thresholds(a.drop_last(), b.drop_last());
        assert(requirement_view(a.last()) == requirement_view(b.last()));
        assert(requirement_threshold(a.last()) == requirement_threshold(b.last()));
    }
}

impl CleanedItem {
    /// Keeps the base type, the type line as name, the modifier texts, the item level,
    /// the properties and requirements as listed, each explicit modifier with its
    /// level, and each hash with its single value list.
    pub fn from_response(response: &ItemResponse) -> (r: Self)
        ensures
            r.base_type@ == response.item.base_type@,
            r.name@ == response.item.type_line@,
            r.explicit_mods@ == response.item.explicit_mods@,
            r.item_level == response.item.ilvl,
            r.properties@.len() == response.item.properties@.len(),
            forall|i: int| 0 <= i < r.properties@.len() ==> property_view(#[trigger] r.properties@[i])
                == property_view(response.item.properties@[i]),
            r.requirements@.len() == response.item.requirements@.len(),
            forall|i: int| 0 <= i < r.requirements@.len() ==> requirement_view(#[trigger] r.requirements@[i])
                == requirement_view(response.item.requirements@[i]),
            r.mod_info.explicit@.len() == response.item.extended.mods.explicit@.len(),
            forall|i: int| 0 <= i < r.mod_info.explicit@.len() ==> cleans_mod(
                #[trigger] r.mod_info.explicit@[i],
                response.item.extended.mods.explicit@[i],
            ),
            r.mod_hashes@.len() == response.item.extended.hashes.explicit@.len(),
            forall|i: int| 0 <= i < r.mod_hashes@.len() ==> {
                &&& (#[trigger] r.mod_hashes@[i]).0 == response.item.extended.hashes.explicit@[i].0
                &&& r.mod_hashes@[i].1@.len() == 1
                &&& r.mod_hashes@[i].1@[0]@ == response.item.extended.hashes.explicit@[i].1@
            },
    {
        let listed = &response.item.extended.mods.explicit;
        let mut mods: Vec<ExplicitMod> = Vec::new();
        let mut i: usize = 0;
        while i < listed.len()
            invariant
                i <= listed@.len(),
                mods@.len() == i,
                forall|k: int| 0 <= k < i ==> cleans_mod(#[trigger] mods@[k], listed@[k]),
            decreases listed@.len() - i,
        {
            let m = &listed[i].base;
            mods.push(ExplicitMod {
                base: ModBase { name: m.name.clone(), tier: m.tier.clone(), magnitudes: copy_magnitudes(&m.magnitudes) },
                level: level_of(m),
            });
            i = i + 1;
        }
        let hashes = &response.item.extended.hashes.explicit;
        let mut mod_hashes: Vec<(String, Vec<Vec<i32>>)> = Vec::new();
        let mut j: usize = 0;
        while j < hashes.len()
            invariant
                j <= hashes@.len(),
                mod_hashes@.len() == j,
                forall|k: int| 0 <= k < j ==> {
                    &&& (#[trigger] mod_hashes@[k]).0 == hashes@[k].0
                    &&& mod_hashes@[k].1@.len() == 1
                    &&& mod_hashes@[k].1@[0]@ == hashes@[k].1@
                },
            decreases hashes@.len() - j,
        {
            let mut one: Vec<Vec<i32>> = Vec::new();
            one.push(copy_ints(&hashes[j].1));
            mod_hashes.push((hashes[j].0.clone(), one));
            j = j + 1;
        }
        CleanedItem {
            base_type: response.item.base_type.clone(),
            name: response.item.type_line.clone(),
            explicit_mods: copy_strings(&response.item.explicit_mods),
            item_level: response.item.ilvl,
            properties: copy_properties(&response.item.properties),
            requirements: copy_requirements(&response.item.requirements),
            mod_info: ModInfo { explicit: mods },
            mod_hashes,
        }
    }

    /// The attribute thresholds the requirements state.
    pub fn get_stat_requirements(&self) -> (r: AttributeThresholds)
        ensures
            r == thresholds_of(self.requirements@),
    {
        collect_thresholds(&self.requirements)
    }

    /// Each explicit modifier's name and tier.
    pub fn get_explicit_mods(&self) -> (r: Vec<(&str, &str)>)
        ensures
            r@.len() == self.mod_info.explicit@.len(),
            forall|i: int| 0 <= i < r@.len() ==> (#[trigger] r@[i]).0@ == self.mod_info.explicit@[i].base.name@
                && r@[i].1@ == self.mod_info.explicit@[i].base.tier@,
    {
        let mods = &self.mod_info.explicit;
        let mut r: Vec<(&str, &str)> = Vec::new();
        let mut i: usize = 0;
        while i < mods.len()
            invariant
                i <= mods@.len(),
                r@.len() == i,
                forall|k: int| 0 <= k < i ==> (#[trigger] r@[k]).0@ == mods@[k].base.name@ && r@[k].1@ == mods@[k].base.tier@,
            decreases mods@.len() - i,
        {
            r.push((mods[i].base.name.as_str(), mods[i].base.tier.as_str()));
            i = i + 1;
        }
        r
    }
}

} // verus!
