//! What kind of item a listing is.
use vstd::prelude::*;

verus! {

#[derive(Debug, Clone, Copy, PartialEq, Eq, Structural)]
pub enum ItemCategory {
    Weapon,
    Armour,
    Accessory,
    Flask,
    Gem,
    Currency,
    DivinationCard,
    MapItem,
    Other,
}

#[derive(Debug, Clone, Copy, PartialEq, Eq, Structural)]
pub enum ItemRarity {
    Normal,
    Magic,
    Rare,
    Unique,
}

#[derive(Debug, Clone)]
pub struct ItemType {
    pub category: ItemCategory,
    pub base_type: String,
    pub rarity: ItemRarity,
    pub required_level: Option<u32>,
}

pub open spec fn is_equipment_category(c: ItemCategory) -> bool {
    c == ItemCategory::Weapon || c == ItemCategory::Armour || c == ItemCategory::Accessory
}

impl ItemType {
    pub fn new(category: ItemCategory, base_type: String, rarity: ItemRarity) -> (r: Self)
        ensures
            r.category == category,
            r.base_type@ == base_type@,
            r.rarity == rarity,
            r.required_level is None,
    {
        Self { category, base_type, rarity, required_level: None }
    }

    pub fn with_level(self, level: u32) -> (r: Self)
        ensures
            r.category == self.category,
            r.base_type@ == self.base_type@,
            r.rarity == self.rarity,
            r.required_level == Some(level),
    {
        let mut r = self;
        r.required_level = Some(level);
        r
    }

    /// Weapons, armour and accessories are equipment.
    pub fn is_equipment(&self) -> (r: bool)
        ensures
            r == is_equipment_category(self.category),
    {
        match self.category {
            ItemCategory::Weapon | ItemCategory::Armour | ItemCategory::Accessory => true,
            _ => false,
        }
    }
}

} // verus!
