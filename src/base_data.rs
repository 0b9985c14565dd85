//! Base item types as the trade data endpoint describes them.
use vstd::prelude::*;
use crate::item_type::ItemCategory;
use crate::numeric::same_text;
use crate::stat_requirements::{CoreAttribute, ItemBaseType};

verus! {

/// What `str::to_lowercase` makes of a text.
pub uninterp spec fn lower_of(s: Seq<char>) -> Seq<char>;

/// Relies on `str::to_lowercase`: the lowercase form, which depends on the text alone.
#[verifier::external_body]
fn lowercase(s: &str) -> (r: String)
    ensures
        r@ == lower_of(s@),
{
    s.to_lowercase()
}

/// The category that a lowercase category name stands for; unknown names are `Other`.
pub open spec fn category_of_lower(l: Seq<char>) -> ItemCategory {
    if l == "weapons"@ {
        ItemCategory::Weapon
    } else if l == "armour"@ || l == "armor"@ {
        ItemCategory::Armour
    } else if l == "accessories"@ {
        ItemCategory::Accessory
    } else if l == "flasks"@ {
        ItemCategory::Flask
    } else if l == "gems"@ {
        ItemCategory::Gem
    } else if l == "currency"@ {
        ItemCategory::Currency
    } else if l == "cards"@ {
        ItemCategory::DivinationCard
    } else if l == "maps"@ {
        ItemCategory::MapItem
    } else {
        ItemCategory::Other
    }
}

/// The category a lowercase category name stands for.
pub fn category_from_lowercase(l: &str) -> (r: ItemCategory)
    ensures
        r == category_of_lower(l@),
{
    if same_text(l, "weapons") {
        ItemCategory::Weapon
    } else if same_text(l, "armour") || same_text(l, "armor") {
        ItemCategory::Armour
    } else if same_text(l, "accessories") {
        ItemCategory::Accessory
    } else if same_text(l, "flasks") {
        ItemCategory::Flask
    } else if same_text(l, "gems") {
        ItemCategory::Gem
    } else if same_text(l, "currency") {
        ItemCategory::Currency
    } else if same_text(l, "cards") {
        ItemCategory::DivinationCard
    } else if same_text(l, "maps") {
        ItemCategory::MapItem
    } else {
        ItemCategory::Other
    }
}

/// The category a category name stands for, whatever its case; every name has one.
pub fn determine_category(api_category: &str) -> (r: Option<ItemCategory>)
    ensures
        r == Some(category_of_lower(lower_of(api_category@))),
{
    let l = lowercase(api_category);
    Some(category_from_lowercase(l.as_str()))
}

#[derive(Debug, Clone, Copy)]
pub struct BaseRequirements {
    pub strength: Option<u32>,
    pub dexterity: Option<u32>,
    pub intelligence: Option<u32>,
    pub level: Option<u32>,
}

/// A base type as the data endpoint lists it.
#[derive(Debug, Clone)]
pub struct TradeApiBase {
    pub name: String,
    pub category: String,
    pub requirements: Option<BaseRequirements>,
}

/// The attributes listed requirements name, in the order Strength, Dexterity,
/// Intelligence.
pub open spec fn listed_attributes(r: BaseRequirements) -> Seq<CoreAttribute> {
    (if r.strength is Some { seq![CoreAttribute::Strength] } else { Seq::empty() })
    + (if r.dexterity is Some { seq![CoreAttribute::Dexterity] } else { Seq::empty() })
    + (if r.intelligence is Some { seq![CoreAttribute::Intelligence] } else { Seq::empty() })
}

/// The base type of a listed base: its name, its category, its attribute
/// requirements in the order Strength, Dexterity, Intelligence, and its level,
/// `1` when none is listed.
pub fn convert_api_base(api_base: TradeApiBase) -> (r: Option<ItemBaseType>)
    ensures
        r matches Some(b) && {
            &&& b.name@ == api_base.name@
            &&& b.category == category_of_lower(lower_of(api_base.category@))
            &&& match api_base.requirements {
                Some(q) => {
                    &&& b.stat_requirements.primary_attributes@ == listed_attributes(q)
                    &&& b.stat_requirements.attribute_thresholds.strength == q.strength
                    &&& b.stat_requirements.attribute_thresholds.dexterity == q.dexterity
                    &&& b.stat_requirements.attribute_thresholds.intelligence == q.intelligence
                    &&& b.base_level == match q.level {
                        Some(l) => l,
                        None => 1u32,
                    }
                },
                None => {
                    &&& b.stat_requirements.primary_attributes@.len() == 0
                    &&& forall|a: CoreAttribute| b.stat_requirements.attribute_thresholds.spec_get(a) is None
                    &&& b.base_level == 1
                },
            }
            &&& b.implicit_modifiers@.len() == 0
            &&& b.tags@.len() == 0
        },
{
    let category = match determine_category(api_base.category.as_str()) {
        Some(c) => c,
        None => {
            return None;
        },
    };
    let mut base = ItemBaseType::new(api_base.name, category);
    match api_base.requirements {
        Some(q) => {
            let ghost e: Seq<CoreAttribute> = Seq::empty();
            if let Some(v) = q.strength {
                base.stat_requirements.add_requirement(CoreAttribute::Strength, v);
            }
            let ghost s1 = if q.strength is Some { seq![CoreAttribute::Strength] } else { e };
            assert(base.stat_requirements.primary_attributes@ =~= s1);
            if let Some(v) = q.dexterity {
                base.stat_requirements.add_requirement(CoreAttribute::Dexterity, v);
            }
            let ghost s2 = s1 + if q.dexterity is Some { seq![CoreAttribute::Dexterity] } else { e };
            assert(base.stat_requirements.primary_attributes@ =~= s2);
            if let Some(v) = q.intelligence {
                base.stat_requirements.add_requirement(CoreAttribute::Intelligence, v);
            }
            let ghost s3 = s2 + if q.intelligence is Some { seq![CoreAttribute::Intelligence] } else { e };
            assert(base.stat_requirements.primary_attributes@ =~= s3);
            assert(s3 =~= listed_attributes(q));
            if let Some(l) = q.level {
                base.base_level = l;
            }
        },
        None => {},
    }
    Some(base)
}

} // verus!
