use poe_item_stats::base_data::{convert_api_base, determine_category, BaseRequirements, TradeApiBase};
use poe_item_stats::errors::ScraperError;
use poe_item_stats::item::{Item, ItemModifier};
use poe_item_stats::item_fetcher::ItemData;
use poe_item_stats::modifier_analyzer::count_modifiers;
use poe_item_stats::item_type::{ItemCategory, ItemRarity, ItemType};
use poe_item_stats::stat_requirements::{
    attribute_from_label, CoreAttribute, ItemBaseDatabase, ItemBaseType, ModifierStatRequirements,
    StatRequirements,
};

#[test]
fn test_item_type_creation() {
    let item = ItemType::new(ItemCategory::Weapon, "Siege Axe".to_string(), ItemRarity::Unique).with_level(68);

    assert_eq!(item.category, ItemCategory::Weapon);
    assert_eq!(item.base_type, "Siege Axe");
    assert_eq!(item.rarity, ItemRarity::Unique);
    assert_eq!(item.required_level, Some(68));
    assert!(item.is_equipment());
}

#[test]
fn flasks_are_not_equipment() {
    let item = ItemType::new(ItemCategory::Flask, "Life Flask".to_string(), ItemRarity::Normal);
    assert!(!item.is_equipment());
    assert_eq!(item.required_level, None);
}

#[test]
fn test_item_base_type_creation() {
    let mut base = ItemBaseType::new("Assassin's Garb".to_string(), ItemCategory::Armour);

    base.stat_requirements.add_requirement(CoreAttribute::Dexterity, 100);
    assert_eq!(base.get_attribute_profile(), "Dex");
}

#[test]
fn attribute_profile_joins_in_order() {
    let mut base = ItemBaseType::new("Hybrid".to_string(), ItemCategory::Armour);
    assert_eq!(base.get_attribute_profile(), "");
    base.stat_requirements.add_requirement(CoreAttribute::Strength, 10);
    base.stat_requirements.add_requirement(CoreAttribute::Intelligence, 20);
    assert_eq!(base.get_attribute_profile(), "Str/Int");
}

#[test]
fn test_hybrid_requirements() {
    let mut reqs = StatRequirements::new();
    reqs.add_requirement(CoreAttribute::Strength, 50);
    reqs.add_requirement(CoreAttribute::Intelligence, 50);

    assert!(reqs.is_hybrid_requirement());
    assert!(!reqs.is_pure_requirement());
}

#[test]
fn dominant_attribute_is_highest_and_first_on_ties() {
    let mut reqs = StatRequirements::new();
    assert_eq!(reqs.get_dominant_attribute(), None);
    reqs.add_requirement(CoreAttribute::Intelligence, 80);
    reqs.add_requirement(CoreAttribute::Dexterity, 120);
    assert_eq!(reqs.get_dominant_attribute(), Some(CoreAttribute::Dexterity));
    reqs.add_requirement(CoreAttribute::Strength, 120);
    assert_eq!(reqs.get_dominant_attribute(), Some(CoreAttribute::Strength));
}

#[test]
fn requirement_labels_alias() {
    assert_eq!(attribute_from_label("Strength"), Some(CoreAttribute::Strength));
    assert_eq!(attribute_from_label("Str"), Some(CoreAttribute::Strength));
    assert_eq!(attribute_from_label("[Strength|Str]"), Some(CoreAttribute::Strength));
    assert_eq!(attribute_from_label("[Dexterity|Dex]"), Some(CoreAttribute::Dexterity));
    assert_eq!(attribute_from_label("Int"), Some(CoreAttribute::Intelligence));
    assert_eq!(attribute_from_label("Level"), None);
}

#[test]
fn test_item_creation_and_modification() {
    let item_type = ItemType::new(ItemCategory::Weapon, "Siege Axe".to_string(), ItemRarity::Unique);

    let mut item = Item::new("test123".to_string(), item_type).with_name("Soul Taker".to_string());

    assert!(item.is_unique());
    assert_eq!(item.name, Some("Soul Taker".to_string()));

    item.set_price(50_000, "chaos".to_string());
    assert!(item.price.is_some());
}

fn modifier_needing(attr: CoreAttribute, threshold: u32) -> ItemModifier {
    let mut requirements = StatRequirements::new();
    requirements.add_requirement(attr, threshold);
    ItemModifier {
        name: "Needs".to_string(),
        tier: None,
        values: vec![],
        is_crafted: false,
        stat_requirements: Some(ModifierStatRequirements { requirements, scaling_attribute: None, is_hybrid: false }),
        attribute_scaling: None,
    }
}

#[test]
fn modifier_fits_only_when_thresholds_are_met() {
    let mut item = Item::new("x".to_string(), ItemType::new(ItemCategory::Armour, "B".to_string(), ItemRarity::Rare));
    item.attribute_values.insert(CoreAttribute::Strength, 100);
    assert!(item.can_have_modifier(&modifier_needing(CoreAttribute::Strength, 100)));
    assert!(!item.can_have_modifier(&modifier_needing(CoreAttribute::Strength, 101)));
    assert!(!item.can_have_modifier(&modifier_needing(CoreAttribute::Dexterity, 1)));
    let free = ItemModifier {
        name: "Free".to_string(),
        tier: None,
        values: vec![],
        is_crafted: false,
        stat_requirements: None,
        attribute_scaling: None,
    };
    assert!(item.can_have_modifier(&free));
}

#[test]
fn test_error_display() {
    let error = ScraperError::ApiError("test error".to_string());
    assert_eq!(error.to_string(), "API Error: test error");
}

#[test]
fn every_error_kind_has_its_label() {
    assert_eq!(ScraperError::ParseError("p".to_string()).to_string(), "Parse Error: p");
    assert_eq!(ScraperError::ValidationError("v".to_string()).to_string(), "Validation Error: v");
    assert_eq!(ScraperError::RateLimitError("r".to_string()).to_string(), "Rate Limit Error: r");
    assert_eq!(ScraperError::NetworkError("n".to_string()).to_string(), "Network Error: n");
    assert_eq!(ScraperError::IoError("i".to_string()).to_string(), "IO Error: i");
    assert_eq!(ScraperError::DatabaseError("d".to_string()).to_string(), "Database Error: d");
    assert_eq!(ScraperError::MigrationError("m".to_string()).to_string(), "Migration Error: m");
}

#[test]
fn test_category_determination() {
    assert!(matches!(determine_category("Weapons"), Some(ItemCategory::Weapon)));
    assert!(matches!(determine_category("Armour"), Some(ItemCategory::Armour)));
    assert!(matches!(determine_category("Unknown"), Some(ItemCategory::Other)));
}

#[test]
fn category_names_ignore_case() {
    assert_eq!(determine_category("ARMOR"), Some(ItemCategory::Armour));
    assert_eq!(determine_category("Maps"), Some(ItemCategory::MapItem));
    assert_eq!(determine_category("cards"), Some(ItemCategory::DivinationCard));
}

#[test]
fn api_base_conversion_keeps_requirements_in_order() {
    let api = TradeApiBase {
        name: "Conjurer Boots".to_string(),
        category: "Armour".to_string(),
        requirements: Some(BaseRequirements { strength: None, dexterity: Some(30), intelligence: Some(40), level: Some(55) }),
    };
    let base = convert_api_base(api).unwrap();
    assert_eq!(base.name, "Conjurer Boots");
    assert_eq!(base.category, ItemCategory::Armour);
    assert_eq!(base.base_level, 55);
    assert_eq!(base.stat_requirements.primary_attributes, vec![CoreAttribute::Dexterity, CoreAttribute::Intelligence]);
    assert_eq!(base.stat_requirements.attribute_thresholds.get(CoreAttribute::Intelligence), Some(40));
    assert_eq!(base.get_attribute_profile(), "Dex/Int");
}

#[test]
fn base_database_replaces_by_name_and_filters_by_attributes() {
    let mut db = ItemBaseDatabase::new();
    let mut garb = ItemBaseType::new("Garb".to_string(), ItemCategory::Armour);
    garb.stat_requirements.add_requirement(CoreAttribute::Dexterity, 100);
    let mut plate = ItemBaseType::new("Plate".to_string(), ItemCategory::Armour);
    plate.stat_requirements.add_requirement(CoreAttribute::Strength, 100);
    plate.stat_requirements.add_requirement(CoreAttribute::Dexterity, 50);
    db.add_base(garb);
    db.add_base(plate);
    let mut garb2 = ItemBaseType::new("Garb".to_string(), ItemCategory::Armour);
    garb2.base_level = 40;
    garb2.stat_requirements.add_requirement(CoreAttribute::Dexterity, 120);
    db.add_base(garb2);

    assert_eq!(db.get_base("Garb").unwrap().base_level, 40);
    assert!(db.get_base("Missing").is_none());
    let dex_only = db.get_bases_by_attributes(&[CoreAttribute::Dexterity]);
    assert_eq!(dex_only.len(), 1);
    assert_eq!(dex_only[0].name, "Garb");
    let both = db.get_bases_by_attributes(&[CoreAttribute::Strength, CoreAttribute::Dexterity]);
    assert_eq!(both.len(), 2);
}

#[test]
fn catalog_counts_categories_and_attribute_listings() {
    let mut db = ItemBaseDatabase::new();
    let mut a = ItemBaseType::new("A".to_string(), ItemCategory::Armour);
    a.stat_requirements.add_requirement(CoreAttribute::Strength, 10);
    a.stat_requirements.add_requirement(CoreAttribute::Dexterity, 10);
    let mut b = ItemBaseType::new("B".to_string(), ItemCategory::Armour);
    b.stat_requirements.add_requirement(CoreAttribute::Strength, 20);
    let c = ItemBaseType::new("C".to_string(), ItemCategory::Weapon);
    db.add_base(a);
    db.add_base(b);
    db.add_base(c);
    assert_eq!(db.len(), 3);
    assert_eq!(db.category_count(ItemCategory::Armour), 2);
    assert_eq!(db.category_count(ItemCategory::Gem), 0);
    assert_eq!(db.attribute_count(CoreAttribute::Strength), 2);
    assert_eq!(db.attribute_count(CoreAttribute::Intelligence), 0);
    let with_dex = db.get_bases_with_attribute(CoreAttribute::Dexterity);
    assert_eq!(with_dex.len(), 1);
    assert_eq!(with_dex[0].name, "A");
}

fn search_item(mods: Option<Vec<&str>>) -> ItemData {
    ItemData {
        id: "i".to_string(),
        item_type: "t".to_string(),
        name: "n".to_string(),
        rarity: "Rare".to_string(),
        explicit_mods: mods.map(|m| m.iter().map(|s| s.to_string()).collect()),
    }
}

#[test]
fn modifier_texts_are_counted_over_items_with_modifiers() {
    let items = vec![
        search_item(Some(vec!["+10 to Strength", "+5% Speed"])),
        search_item(None),
        search_item(Some(vec!["+10 to Strength", "+10 to Strength"])),
    ];
    let counted = count_modifiers(&items);
    assert_eq!(counted.items_with_modifiers, 2);
    assert_eq!(counted.counts, vec![("+10 to Strength".to_string(), 3), ("+5% Speed".to_string(), 1)]);
    let none = count_modifiers(&vec![]);
    assert_eq!(none.items_with_modifiers, 0);
    assert!(none.counts.is_empty());
}
