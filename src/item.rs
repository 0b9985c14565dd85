//! The canonical item, and how a listing becomes one.
use vstd::prelude::*;
use vstd::string::*;
use crate::errors::ScraperError;
use crate::item_type::{ItemCategory, ItemRarity, ItemType};
use crate::numeric::{amount_of_text, i32_of_text, parse_amount, parse_i32, same_text};
use crate::poe_item::{requirement_threshold, requirement_threshold_of, thresholds_of, ItemResponse, Magnitude, ModInfo, Requirement};
use crate::stat_requirements::{AttributeThresholds, CoreAttribute, ModifierStatRequirements, StatRequirements};

verus! {

/// A modifier of a canonical item; `values` are its rolls in thousandths, the first
/// being the one the statistics use.
#[derive(Debug, Clone)]
pub struct ItemModifier {
    pub name: String,
    pub tier: Option<i32>,
    pub values: Vec<i64>,
    pub is_crafted: bool,
    pub stat_requirements: Option<ModifierStatRequirements>,
    pub attribute_scaling: Option<Vec<(CoreAttribute, i64)>>,
}

/// An asking price; `amount` in thousandths.
#[derive(Debug, Clone)]
pub struct ItemPrice {
    pub amount: i64,
    pub currency: String,
}

#[derive(Debug, Clone)]
pub struct Item {
    pub id: String,
    pub item_type: ItemType,
    pub name: Option<String>,
    pub item_level: u32,
    pub modifiers: Vec<ItemModifier>,
    pub price: Option<ItemPrice>,
    pub stats: Vec<(String, i64)>,
    pub corrupted: bool,
    pub stat_requirements: StatRequirements,
    pub attribute_values: AttributeThresholds,
}

/// The rarity a listing's rarity text names; anything unknown is `Normal`.
pub open spec fn rarity_of(s: Seq<char>) -> ItemRarity {
    if s == "Unique"@ {
        ItemRarity::Unique
    } else if s == "Rare"@ {
        ItemRarity::Rare
    } else if s == "Magic"@ {
        ItemRarity::Magic
    } else {
        ItemRarity::Normal
    }
}

/// The amounts of every roll, when each one's `min` is a number.
pub open spec fn roll_amounts(ms: Seq<Magnitude>) -> Option<Seq<i64>>
    decreases ms.len(),
{
    if ms.len() == 0 {
        Some(Seq::empty())
    } else {
        match (roll_amounts(ms.drop_last()), amount_of_text(ms.last().min@)) {
            (Some(prev), Some(v)) => Some(prev.push(v)),
            _ => None,
        }
    }
}

/// The values a modifier keeps: all of its rolls, or none when one is not a number.
pub open spec fn modifier_values(ms: Seq<Magnitude>) -> Seq<i64> {
    match roll_amounts(ms) {
        Some(v) => v,
        None => Seq::empty(),
    }
}

/// `m` is the modifier made from the text `text` and the listed modifier `listed`.
pub open spec fn canonical_modifier(m: ItemModifier, text: Seq<char>, listed: ModInfo) -> bool {
    &&& m.name@ == text
    &&& m.tier == i32_of_text(listed.base.tier@)
    &&& m.values@ == modifier_values(listed.base.magnitudes@)
    &&& !m.is_crafted
    &&& m.stat_requirements is None
    &&& m.attribute_scaling is None
}

/// The attributes that requirements state, in order of their first statement.
pub open spec fn stated_attributes(reqs: Seq<Requirement>) -> Seq<CoreAttribute>
    decreases reqs.len(),
{
    if reqs.len() == 0 {
        Seq::empty()
    } else {
        match requirement_threshold(reqs.last()) {
            Some((a, _)) => if thresholds_of(reqs.drop_last()).spec_get(a) is None {
                stated_attributes(reqs.drop_last()).push(a)
            } else {
                stated_attributes(reqs.drop_last())
            },
            None => stated_attributes(reqs.drop_last()),
        }
    }
}

/// Whether an item meets the thresholds: it has a value of its own for each
/// attribute with a threshold, and that value is no lower.
pub open spec fn meets_thresholds(values: AttributeThresholds, needs: AttributeThresholds) -> bool {
    forall|a: CoreAttribute| #[trigger] needs.spec_get(a) is Some ==> values.spec_get(a) is Some
        && values.spec_get(a).unwrap() >= needs.spec_get(a).unwrap()
}

/// Why a listing is not made canonical: no price, or a price that is not a number.
pub open spec fn skip_reason(response: ItemResponse) -> Option<ScraperError> {
    match response.listing.price {
        None => Some(ScraperError::ValidationError(arbitrary())),
        Some(p) => if amount_of_text(p.amount@) is None {
            Some(ScraperError::ParseError(arbitrary()))
        } else {
            None
        },
    }
}

fn rarity_from(s: &str) -> (r: ItemRarity)
    ensures
        r == rarity_of(s@),
{
    if same_text(s, "Unique") {
        ItemRarity::Unique
    } else if same_text(s, "Rare") {
        ItemRarity::Rare
    } else if same_text(s, "Magic") {
        ItemRarity::Magic
    } else {
        ItemRarity::Normal
    }
}

fn values_from(ms: &Vec<Magnitude>) -> (r: Vec<i64>)
    ensures
        r@ == modifier_values(ms@),
{
    let mut r: Vec<i64> = Vec::new();
    let mut i: usize = 0;
    while i < ms.len()
        invariant
            i <= ms@.len(),
            roll_amounts(ms@.take(i as int)) == Some(r@),
        decreases ms@.len() - i,
    {
        assert(ms@.take(i as int + 1).drop_last() =~= ms@.take(i as int));
        assert(ms@.take(i as int + 1).last() == ms@[i as int]);
        match parse_amount(ms[i].min.as_str()) {
            Some(v) => {
                r.push(v);
            },
            None => {
                proof {
                    lemma_roll_amounts_fail(ms@, i as int + 1);
                }
                return Vec::new();
            },
        }
        i = i + 1;
    }
    assert(ms@.take(i as int) =~= ms@);
    r
}

proof fn lemma_roll_amounts_fail(ms: Seq<Magnitude>, k: int)
    requires
        0 <= k <= ms.len(),
        roll_amounts(ms.take(k)) is None,
    ensures
        roll_amounts(ms) is None,
    decreases ms.len(),
{
    if k < ms.len() {
        assert(ms.drop_last().take(k) =~= ms.take(k));
        lemma_roll_amounts_fail(ms.drop_last(), k);
    } else {
        assert(ms.take(k) =~= ms);
    }
}

impl Item {
    pub fn new(id: String, item_type: ItemType) -> (r: Self)
        ensures
            r.id@ == id@,
            r.item_type.category == item_type.category,
            r.item_type.base_type@ == item_type.base_type@,
            r.item_type.rarity == item_type.rarity,
            r.item_type.required_level == item_type.required_level,
            r.name is None,
            r.item_level == 0,
            r.modifiers@.len() == 0,
            r.price is None,
            r.stats@.len() == 0,
            !r.corrupted,
            r.stat_requirements.primary_attributes@.len() == 0,
            forall|a: CoreAttribute| r.stat_requirements.attribute_thresholds.spec_get(a) is None,
            forall|a: CoreAttribute| r.attribute_values.spec_get(a) is None,
    {
        Self {
            id,
            item_type,
            name: None,
            item_level: 0,
            modifiers: Vec::new(),
            price: None,
            stats: Vec::new(),
            corrupted: false,
            stat_requirements: StatRequirements::new(),
            attribute_values: AttributeThresholds::new(),
        }
    }

    pub fn with_name(self, name: String) -> (r: Self)
        ensures
            r.name matches Some(n) && n@ == name@,
            r.id@ == self.id@,
            r.item_type.rarity == self.item_type.rarity,
            r.item_type.category == self.item_type.category,
            r.modifiers@ == self.modifiers@,
            r.price == self.price,
    {
        let mut r = self;
        r.name = Some(name);
        r
    }

    pub fn add_modifier(&mut self, modifier: ItemModifier)
        ensures
            final(self).modifiers@ == old(self).modifiers@.push(modifier),
            final(self).name == old(self).name,
            final(self).price == old(self).price,
            final(self).attribute_values == old(self).attribute_values,
    {
        self.modifiers.push(modifier);
    }

    pub fn set_price(&mut self, amount: i64, currency: String)
        ensures
            final(self).price matches Some(p) && p.amount == amount && p.currency@ == currency@,
            final(self).name == old(self).name,
            final(self).modifiers@ == old(self).modifiers@,
            final(self).attribute_values == old(self).attribute_values,
    {
        self.price = Some(ItemPrice { amount, currency });
    }

    pub fn is_unique(&self) -> (r: bool)
        ensures
            r == (self.item_type.rarity == ItemRarity::Unique),
    {
        self.item_type.rarity == ItemRarity::Unique
    }

    /// Whether the item meets what the modifier needs of it; a modifier that needs
    /// nothing fits any item.
    pub fn can_have_modifier(&self, modifier: &ItemModifier) -> (r: bool)
        ensures
            r == match modifier.stat_requirements {
                Some(req) => meets_thresholds(self.attribute_values, req.requirements.attribute_thresholds),
                None => true,
            },
    {
        match &modifier.stat_requirements {
            Some(req) => {
                let needs = &req.requirements.attribute_thresholds;
                let attrs: [CoreAttribute; 3] = [CoreAttribute::Strength, CoreAttribute::Dexterity, CoreAttribute::Intelligence];
                let mut i: usize = 0;
                while i < 3
                    invariant
                        i <= 3,
                        modifier.stat_requirements == Some(*req),
                        *needs == req.requirements.attribute_thresholds,
                        attrs@ == seq![CoreAttribute::Strength, CoreAttribute::Dexterity, CoreAttribute::Intelligence],
                        forall|k: int| 0 <= k < i ==> (#[trigger] needs.spec_get(attrs@[k])) is Some ==> self.attribute_values.spec_get(attrs@[k]) is Some
                            && self.attribute_values.spec_get(attrs@[k]).unwrap() >= needs.spec_get(attrs@[k]).unwrap(),
                    decreases 3 - i,
                {
                    let a = attrs[i];
                    match needs.get(a) {
                        Some(t) => match self.attribute_values.get(a) {
                            Some(v) => {
                                if v < t {
                                    assert(needs.spec_get(a) is Some);
                                    assert(!meets_thresholds(self.attribute_values, *needs));
                                    return false;
                                }
                            },
                            None => {
                                assert(needs.spec_get(a) is Some);
                                assert(!meets_thresholds(self.attribute_values, *needs));
                                return false;
                            },
                        },
                        None => {},
                    }
                    i = i + 1;
                }
                assert forall|a: CoreAttribute| #[trigger] needs.spec_get(a) is Some implies self.attribute_values.spec_get(a) is Some
                    && self.attribute_values.spec_get(a).unwrap() >= needs.spec_get(a).unwrap() by {
                    match a {
                        CoreAttribute::Strength => assert(attrs@[0] == a),
                        CoreAttribute::Dexterity => assert(attrs@[1] == a),
                        CoreAttribute::Intelligence => assert(attrs@[2] == a),
                    }
                }
                true
            },
            None => true,
        }
    }

    /// Makes a listing canonical. A listing without a price is skipped with a
    /// `ValidationError`, one whose price is not a number with a `ParseError`;
    /// anything else that cannot be read is dropped from the item, not the item:
    /// a modifier whose rolls are not all numbers keeps no values, and a
    /// requirement that states no attribute threshold, or repeats an attribute
    /// stated before, is left out.
    pub fn canonicalize(response: &ItemResponse) -> (r: Result<Item, ScraperError>)
        ensures
            match r {
                Err(e) => skip_reason(*response) matches Some(s) && match (e, s) {
                    (ScraperError::ValidationError(_), ScraperError::ValidationError(_)) => true,
                    (ScraperError::ParseError(_), ScraperError::ParseError(_)) => true,
                    _ => false,
                },
                Ok(item) => {
                    &&& skip_reason(*response) is None
                    &&& item.id@ == response.id@
                    &&& item.item_type.category == ItemCategory::Other
                    &&& item.item_type.base_type@ == response.item.base_type@
                    &&& item.item_type.rarity == rarity_of(response.item.rarity@)
                    &&& item.item_type.required_level is None
                    &&& item.name matches Some(n) && n@ == response.item.type_line@
                    &&& item.item_level == response.item.ilvl
                    &&& item.price matches Some(p) && response.listing.price matches Some(lp)
                        && amount_of_text(lp.amount@) == Some(p.amount) && p.currency@ == lp.currency@
                    &&& item.modifiers@.len() == if response.item.explicit_mods@.len() < response.item.extended.mods.explicit@.len() {
                        response.item.explicit_mods@.len()
                    } else {
                        response.item.extended.mods.explicit@.len()
                    }
                    &&& forall|i: int| 0 <= i < item.modifiers@.len() ==> canonical_modifier(
                        #[trigger] item.modifiers@[i],
                        response.item.explicit_mods@[i]@,
                        response.item.extended.mods.explicit@[i],
                    )
                    &&& item.stats@.len() == 0
                    &&& !item.corrupted
                    &&& item.stat_requirements.primary_attributes@ == stated_attributes(response.item.requirements@)
                    &&& item.stat_requirements.attribute_thresholds == thresholds_of(response.item.requirements@)
                    &&& item.attribute_values == thresholds_of(response.item.requirements@)
                },
            },
    {
        let price = match &response.listing.price {
            None => {
                return Err(ScraperError::ValidationError(String::from_str("listing has no price")));
            },
            Some(p) => match parse_amount(p.amount.as_str()) {
                None => {
                    return Err(ScraperError::ParseError(String::from_str("price is not a number")));
                },
                Some(a) => ItemPrice { amount: a, currency: p.currency.clone() },
            },
        };
        let texts = &response.item.explicit_mods;
        let listed = &response.item.extended.mods.explicit;
        let n = if texts.len() < listed.len() {
            texts.len()
        } else {
            listed.len()
        };
        let mut modifiers: Vec<ItemModifier> = Vec::new();
        let mut i: usize = 0;
        while i < n
            invariant
                i <= n,
                n <= texts@.len(),
                n <= listed@.len(),
                modifiers@.len() == i,
                forall|k: int| 0 <= k < i ==> canonical_modifier(#[trigger] modifiers@[k], texts@[k]@, listed@[k]),
            decreases n - i,
        {
            let m = &listed[i].base;
            modifiers.push(ItemModifier {
                name: texts[i].clone(),
                tier: parse_i32(m.tier.as_str()),
                values: values_from(&m.magnitudes),
                is_crafted: false,
                stat_requirements: None,
                attribute_scaling: None,
            });
            i = i + 1;
        }
        let reqs = &response.item.requirements;
        let mut stat_requirements = StatRequirements::new();
        let mut values = AttributeThresholds::new();
        let mut j: usize = 0;
        while j < reqs.len()
            invariant
                j <= reqs@.len(),
                stat_requirements.primary_attributes@ == stated_attributes(reqs@.take(j as int)),
                stat_requirements.attribute_thresholds == thresholds_of(reqs@.take(j as int)),
                values == thresholds_of(reqs@.take(j as int)),
            decreases reqs@.len() - j,
        {
            assert(reqs@.take(j as int + 1).drop_last() =~= reqs@.take(j as int));
            assert(reqs@.take(j as int + 1).last() == reqs@[j as int]);
            match requirement_threshold_of(&reqs[j]) {
                Some((a, v)) => {
                    if values.get(a).is_none() {
                        stat_requirements.add_requirement(a, v);
                        values.insert(a, v);
                        assert(stat_requirements.attribute_thresholds == values);
                    }
                },
                None => {},
            }
            j = j + 1;
        }
        assert(reqs@.take(j as int) =~= reqs@);
        let item_type = ItemType::new(ItemCategory::Other, response.item.base_type.clone(), rarity_from(response.item.rarity.as_str()));
        Ok(Item {
            id: response.id.clone(),
            item_type,
            name: Some(response.item.type_line.clone()),
            item_level: response.item.ilvl,
            modifiers,
            price: Some(price),
            stats: Vec::new(),
            corrupted: false,
            stat_requirements,
            attribute_values: values,
        })
    }
}

} // verus!
