use poe_item_stats::errors::ScraperError;
use poe_item_stats::item::Item;
use poe_item_stats::item_fetcher::ItemFetcher;
use poe_item_stats::item_type::{ItemCategory, ItemRarity};
use poe_item_stats::poe_item::{
    Account, ExtendedData, HashData, ItemData, ItemResponse, ListingData, Magnitude, ModBase, ModData, ModInfo,
    Price, Property, Requirement,
};
use poe_item_stats::stat_analyzer::StatAnalyzer;
use poe_item_stats::stat_requirements::CoreAttribute;
use poe_item_stats::trade_api::{
    build_attribute_query, build_basic_query, build_jewel_query, fetch_delay_ms, fetch_outcome, id_batches,
    random_fetch_delay_ms, remaining_wait_ms, threshold_ranges, FetchOutcome, SearchResponse, TradeStatus,
};

fn requirement(label: &str, value: &str) -> Requirement {
    Requirement { name: label.to_string(), values: vec![(value.to_string(), 0)], display_mode: 1 }
}

fn listed_mod(name: &str, tier: &str, mins: &[&str]) -> ModInfo {
    ModInfo {
        base: ModBase {
            name: name.to_string(),
            tier: tier.to_string(),
            magnitudes: mins
                .iter()
                .map(|m| Magnitude { hash: "h".to_string(), min: m.to_string(), max: m.to_string() })
                .collect(),
        },
    }
}

fn listing(id: &str, price: Option<&str>) -> ItemResponse {
    ItemResponse {
        id: id.to_string(),
        item: ItemData {
            base_type: "Advanced Maraketh Cuirass".to_string(),
            name: "Fate Suit".to_string(),
            explicit_mods: vec!["+17 to Strength".to_string(), "+54% increased Armour".to_string()],
            extended: ExtendedData {
                mods: ModData {
                    explicit: vec![listed_mod("of the Lion", "R4", &["17"]), listed_mod("Armoured", "2", &["54", "x"])],
                },
                hashes: HashData { explicit: vec![] },
            },
            frame_type: 2,
            requirements: vec![
                requirement("Level", "60"),
                requirement("Str", "105"),
                requirement("[Intelligence|Int]", "oops"),
                requirement("Dexterity", "44"),
                requirement("[Strength|Str]", "200"),
            ],
            properties: vec![
                Property { name: "[Armour]".to_string(), values: vec![("483".to_string(), 1)], display_mode: 0 },
                Property { name: "Quality".to_string(), values: vec![("+20%".to_string(), 1)], display_mode: 0 },
                Property { name: "Body Armour".to_string(), values: vec![], display_mode: 0 },
            ],
            rarity: "Rare".to_string(),
            type_line: "Advanced Maraketh Cuirass".to_string(),
            ilvl: 75,
        },
        listing: ListingData {
            price: price.map(|p| Price { amount: p.to_string(), currency: "regal".to_string() }),
            account: Account { name: "TestAccount".to_string(), realm: "poe2".to_string() },
        },
    }
}

#[test]
fn canonical_item_reads_every_field() {
    let item = Item::canonicalize(&listing("x1", Some("1.5"))).unwrap();
    assert_eq!(item.id, "x1");
    assert_eq!(item.item_type.category, ItemCategory::Other);
    assert_eq!(item.item_type.rarity, ItemRarity::Rare);
    assert_eq!(item.name, Some("Advanced Maraketh Cuirass".to_string()));
    assert_eq!(item.item_level, 75);
    let price = item.price.unwrap();
    assert_eq!(price.amount, 1_500);
    assert_eq!(price.currency, "regal");
    assert_eq!(item.modifiers.len(), 2);
    assert_eq!(item.modifiers[0].name, "+17 to Strength");
    assert_eq!(item.modifiers[0].tier, None);
    assert_eq!(item.modifiers[0].values, vec![17_000]);
    assert_eq!(item.modifiers[1].tier, Some(2));
    assert!(item.modifiers[1].values.is_empty());
    assert_eq!(item.stat_requirements.primary_attributes, vec![CoreAttribute::Strength, CoreAttribute::Dexterity]);
    assert_eq!(item.attribute_values.get(CoreAttribute::Strength), Some(105));
    assert_eq!(item.attribute_values.get(CoreAttribute::Dexterity), Some(44));
    assert_eq!(item.attribute_values.get(CoreAttribute::Intelligence), None);
}

#[test]
fn unknown_rarity_is_normal() {
    let mut raw = listing("x", Some("1"));
    raw.item.rarity = "Relic".to_string();
    assert_eq!(Item::canonicalize(&raw).unwrap().item_type.rarity, ItemRarity::Normal);
    raw.item.rarity = "Unique".to_string();
    assert!(Item::canonicalize(&raw).unwrap().is_unique());
}

#[test]
fn listing_without_price_is_skipped() {
    assert!(matches!(Item::canonicalize(&listing("x", None)), Err(ScraperError::ValidationError(_))));
    assert!(matches!(Item::canonicalize(&listing("x", Some("lots"))), Err(ScraperError::ParseError(_))));
}

#[test]
fn malformed_price_is_skipped_and_the_rest_analysed() {
    let mut analyzer = StatAnalyzer::new();
    let mut skipped = 0;
    for i in 0..10 {
        let price = if i == 4 { "not a number" } else { "2" };
        match Item::canonicalize(&listing(&format!("id{}", i), Some(price))) {
            Ok(item) => analyzer.process_canonical_item(&item),
            Err(_) => skipped += 1,
        }
    }
    assert_eq!(skipped, 1);
    let report = analyzer.generate_attribute_report().unwrap();
    assert_eq!(report.total_items_analyzed, 9);
}

#[test]
fn listing_values_are_read() {
    let raw = listing("x", Some("1"));
    assert_eq!(raw.get_stat_values(), vec![("[Armour]".to_string(), 483), ("Quality".to_string(), 0)]);
    let t = raw.get_stat_requirements();
    assert_eq!(t.get(CoreAttribute::Strength), Some(105));
    assert_eq!(t.get(CoreAttribute::Intelligence), None);
    assert_eq!(
        raw.get_explicit_mod_values(),
        vec![("of the Lion".to_string(), 17_000), ("Armoured".to_string(), 54_000)]
    );
}

#[test]
fn trade_status_texts() {
    assert_eq!(TradeStatus::Online.as_str(), "online");
    assert_eq!(TradeStatus::OnlineLeague.as_str(), "onlineleague");
    assert_eq!(TradeStatus::Any.as_str(), "any");
}

#[test]
fn queries_name_status_category_and_order() {
    let basic = build_basic_query(TradeStatus::Any);
    assert_eq!(basic.query.status.option, "any");
    assert_eq!(basic.query.filters.type_filters.filters.category.option, "any");
    assert_eq!(basic.query.stats.len(), 1);
    assert_eq!(basic.query.stats[0].filter_type, "and");
    assert!(basic.query.stats[0].filters.is_empty());
    let sort = basic.sort.unwrap();
    assert_eq!((sort.field.as_str(), sort.direction.as_str()), ("price", "asc"));
    let jewel = build_jewel_query(TradeStatus::Online);
    assert_eq!(jewel.query.filters.type_filters.filters.category.option, "jewel");
    assert_eq!(jewel.query.status.option, "online");
    let attr = build_attribute_query(CoreAttribute::Dexterity, 51, 100);
    assert_eq!(attr.query.filters.type_filters.filters.category.option, "armour");
    assert_eq!(attr.query.stats[0].filters[0].id, "explicit.stat_1284417561");
    let v = attr.query.stats[0].filters[0].value.unwrap();
    assert_eq!((v.min, v.max), (Some(51), Some(100)));
    assert_eq!(threshold_ranges(), vec![(0, 50), (51, 100), (101, 150), (151, 200)]);
}

#[test]
fn fetch_pacing() {
    assert_eq!(fetch_delay_ms(0), 500);
    assert_eq!(fetch_delay_ms(1234), 534);
    for _ in 0..20 {
        if let Some(d) = random_fetch_delay_ms() {
            assert!((500..600).contains(&d));
        }
    }
    assert_eq!(remaining_wait_ms(100, 500), 400);
    assert_eq!(remaining_wait_ms(700, 500), 0);
    assert_eq!(fetch_outcome(429), FetchOutcome::WaitAndSkip);
    assert_eq!(fetch_outcome(200), FetchOutcome::Parse);
    assert_eq!(fetch_outcome(404), FetchOutcome::Ignore);
}

#[test]
fn ids_are_fetched_in_batches_of_ten() {
    let ids: Vec<String> = (0..23).map(|i| format!("i{}", i)).collect();
    let batches = id_batches(&ids);
    assert_eq!(batches.len(), 3);
    assert_eq!(batches[0], "i0,i1,i2,i3,i4,i5,i6,i7,i8,i9");
    assert_eq!(batches[2], "i20,i21,i22");
    assert!(id_batches(&[]).is_empty());
    let response = SearchResponse::new(ids.clone(), 23, None);
    assert_eq!(response.get_result_ids().len(), 23);
    assert_eq!(response.total(), 23);
}

#[test]
fn fetcher_addresses() {
    let fetcher = ItemFetcher::new("Standard");
    assert_eq!(fetcher.league(), "Standard");
    assert_eq!(
        fetcher.search_url("abc"),
        "https://www.pathofexile.com/api/trade2/search/Standard?query=abc"
    );
    let ids = vec!["a".to_string(), "b".to_string()];
    assert_eq!(ItemFetcher::fetch_url(&ids), "https://www.pathofexile.com/api/trade2/fetch/a,b");
}
