use poe_item_stats::cleaned_item::{CleanedItem, ItemProperty, ItemRequirement, ModInfo as CleanedModInfo};
use poe_item_stats::item::{Item, ItemModifier};
use poe_item_stats::item_type::{ItemCategory, ItemRarity, ItemType};
use poe_item_stats::poe_item::{
    Account, ExplicitMod, ExtendedData, HashData, ItemData, ItemResponse, ListingData, Magnitude, ModBase,
    ModData, ModInfo, Price, Property, Requirement,
};
use poe_item_stats::report::RequirementSummary;
use poe_item_stats::stat_analyzer::{StatAnalyzer, StatRequirementType};
use poe_item_stats::stat_requirements::{AttributeThresholds, CoreAttribute};

fn analyzer_basic_functionality() {
    let mut analyzer = StatAnalyzer::new();

    let mut item = Item::new(
        "test_item".to_string(),
        ItemType::new(ItemCategory::Armour, "Test Base".to_string(), ItemRarity::Rare),
    );

    item.stat_requirements.add_requirement(CoreAttribute::Strength, 100);
    item.attribute_values.insert(CoreAttribute::Strength, 100);

    let modifier = ItemModifier {
        name: "Test Modifier".to_string(),
        tier: Some(1),
        values: vec![10_000],
        is_crafted: false,
        stat_requirements: None,
        attribute_scaling: None,
    };

    item.modifiers.push(modifier);

    analyzer.process_canonical_item(&item);

    let report = analyzer.generate_attribute_report().unwrap();
    assert_eq!(report.total_items_analyzed, 1);
}

#[test]
fn test_stat_analyzer_basic_functionality() {
    analyzer_basic_functionality();
}

#[test]
fn stat_analyzer_test_stat_analyzer_basic_functionality() {
    analyzer_basic_functionality();
}

fn lion_mod() -> ModBase {
    ModBase {
        name: "of the Lion".to_string(),
        tier: "R4".to_string(),
        magnitudes: vec![Magnitude {
            hash: "explicit.stat_4080418644".to_string(),
            max: "20".to_string(),
            min: "17".to_string(),
        }],
    }
}

fn create_test_item_response() -> ItemResponse {
    ItemResponse {
        id: "test_id".to_string(),
        item: ItemData {
            base_type: "Advanced Maraketh Cuirass".to_string(),
            type_line: "Advanced Maraketh Cuirass".to_string(),
            explicit_mods: vec![
                "+54% increased Armour".to_string(),
                "+109 to maximum Life".to_string(),
                "+17 to Strength".to_string(),
            ],
            ilvl: 75,
            frame_type: 2,
            properties: vec![
                Property { name: "Body Armour".to_string(), values: vec![], display_mode: 0 },
                Property { name: "[Armour]".to_string(), values: vec![("483".to_string(), 1)], display_mode: 0 },
            ],
            requirements: vec![Requirement {
                name: "[Strength|Str]".to_string(),
                values: vec![("105".to_string(), 0)],
                display_mode: 1,
            }],
            extended: ExtendedData {
                mods: ModData { explicit: vec![ModInfo { base: lion_mod() }] },
                hashes: HashData { explicit: vec![("explicit.stat_4080418644".to_string(), vec![2])] },
            },
            name: "Fate Suit".to_string(),
            rarity: "Rare".to_string(),
        },
        listing: ListingData {
            price: Some(Price { amount: "1.0".to_string(), currency: "regal".to_string() }),
            account: Account { name: "TestAccount".to_string(), realm: "poe2".to_string() },
        },
    }
}

fn create_test_cleaned_item() -> CleanedItem {
    CleanedItem {
        base_type: "Advanced Maraketh Cuirass".to_string(),
        name: "Fate Suit".to_string(),
        explicit_mods: vec![
            "+54% increased Armour".to_string(),
            "+109 to maximum Life".to_string(),
            "+17 to Strength".to_string(),
        ],
        item_level: 75,
        properties: vec![
            ItemProperty { name: "Body Armour".to_string(), values: vec![], display_mode: 0 },
            ItemProperty { name: "[Armour]".to_string(), values: vec![("483".to_string(), 1)], display_mode: 0 },
        ],
        requirements: vec![ItemRequirement {
            name: "[Strength|Str]".to_string(),
            values: vec![("105".to_string(), 0)],
            display_mode: 1,
        }],
        mod_info: CleanedModInfo { explicit: vec![ExplicitMod { level: 33, base: lion_mod() }] },
        mod_hashes: vec![("explicit.stat_4080418644".to_string(), vec![vec![2]])],
    }
}

fn single_count(analyzer: &StatAnalyzer, attr: CoreAttribute) -> Option<usize> {
    analyzer
        .get_requirement_statistics()
        .entries
        .iter()
        .find(|e| e.shape == StatRequirementType::Single(attr))
        .map(|e| e.count)
}

#[test]
fn test_stat_analyzer_cleaned_item() {
    let mut analyzer = StatAnalyzer::new();
    let cleaned_item = create_test_cleaned_item();
    analyzer.process_cleaned_item(&cleaned_item);

    let report = analyzer.generate_attribute_report().unwrap();
    assert_eq!(report.total_items_analyzed, 1);

    assert!(single_count(&analyzer, CoreAttribute::Strength).is_some());
}

#[test]
fn test_compare_implementations() {
    let mut analyzer_listing = StatAnalyzer::new();
    let mut analyzer_cleaned = StatAnalyzer::new();

    let item_response = create_test_item_response();
    let cleaned_item = create_test_cleaned_item();

    analyzer_listing.process_item(&item_response);
    analyzer_cleaned.process_cleaned_item(&cleaned_item);

    let report_listing = analyzer_listing.generate_attribute_report().unwrap();
    let report_cleaned = analyzer_cleaned.generate_attribute_report().unwrap();

    assert_eq!(report_listing.total_items_analyzed, report_cleaned.total_items_analyzed);

    let stats_listing = analyzer_listing.get_requirement_statistics();
    let stats_cleaned = analyzer_cleaned.get_requirement_statistics();

    assert_eq!(stats_listing, stats_cleaned);

    assert_eq!(
        single_count(&analyzer_listing, CoreAttribute::Strength),
        single_count(&analyzer_cleaned, CoreAttribute::Strength)
    );

    assert_eq!(report_listing.attribute_correlations, report_cleaned.attribute_correlations);
}

#[test]
fn cleaned_item_keeps_what_analysis_reads() {
    let cleaned = CleanedItem::from_response(&create_test_item_response());
    assert_eq!(cleaned.name, "Advanced Maraketh Cuirass");
    assert_eq!(cleaned.item_level, 75);
    assert_eq!(cleaned.mod_info.explicit.len(), 1);
    assert_eq!(cleaned.mod_info.explicit[0].level, 17);
    assert_eq!(cleaned.get_explicit_mods(), vec![("of the Lion", "R4")]);
    assert_eq!(cleaned.get_stat_requirements().get(CoreAttribute::Strength), Some(105));
    assert_eq!(cleaned.mod_hashes, vec![("explicit.stat_4080418644".to_string(), vec![vec![2]])]);
}

fn names(v: &[&str]) -> Vec<String> {
    v.iter().map(|s| s.to_string()).collect()
}

fn strength(v: u32) -> AttributeThresholds {
    let mut t = AttributeThresholds::new();
    t.insert(CoreAttribute::Strength, v);
    t
}

#[test]
fn one_strength_item_scenario() {
    let mut analyzer = StatAnalyzer::new();
    analyzer.observe_item(&names(&["A", "B"]), &strength(100));
    assert_eq!(analyzer.correlation_count("A", "B"), 1);
    assert_eq!(analyzer.correlation_count("B", "A"), 1);
    assert_eq!(analyzer.occurrence_count("A", CoreAttribute::Strength), 1);
    assert_eq!(analyzer.threshold_samples("A", CoreAttribute::Strength), Some(&vec![100]));
    assert_eq!(
        analyzer.requirement_distribution(StatRequirementType::Single(CoreAttribute::Strength)),
        &vec![(100, 0)]
    );
}

#[test]
fn correlation_table_is_symmetric() {
    let mut analyzer = StatAnalyzer::new();
    analyzer.observe_item(&names(&["A", "B", "C"]), &AttributeThresholds::new());
    analyzer.observe_item(&names(&["C", "A"]), &strength(5));
    analyzer.observe_item(&names(&["B"]), &strength(7));
    for x in ["A", "B", "C", "D"] {
        for y in ["A", "B", "C", "D"] {
            assert_eq!(analyzer.correlation_count(x, y), analyzer.correlation_count(y, x));
        }
    }
    assert_eq!(analyzer.correlation_count("A", "C"), 2);
    assert_eq!(analyzer.correlation_count("A", "A"), 0);
}

#[test]
fn total_counts_every_item_including_empty_ones() {
    let mut analyzer = StatAnalyzer::new();
    for i in 0..5 {
        if i % 2 == 0 {
            analyzer.observe_item(&vec![], &AttributeThresholds::new());
        } else {
            analyzer.observe_item(&names(&["A", "B", "C"]), &strength(i));
        }
    }
    assert_eq!(analyzer.total_items(), 5);
}

#[test]
fn repeated_modifier_counts_per_entry() {
    let mut analyzer = StatAnalyzer::new();
    analyzer.observe_item(&names(&["A", "B", "A"]), &strength(10));
    assert_eq!(analyzer.correlation_count("A", "B"), 2);
    assert_eq!(analyzer.correlation_count("B", "A"), 2);
    assert_eq!(analyzer.occurrence_count("A", CoreAttribute::Strength), 2);
    assert_eq!(analyzer.threshold_samples("A", CoreAttribute::Strength), Some(&vec![10, 10]));
    assert_eq!(analyzer.occurrence_count("B", CoreAttribute::Strength), 1);
    assert_eq!(analyzer.correlation_count("A", "A"), 0);
    assert_eq!(analyzer.pair_volume(), 9);
}

#[test]
fn pairs_with_equal_counts_keep_table_order_and_match_the_report() {
    let mut analyzer = StatAnalyzer::new();
    analyzer.observe_item(&names(&["A", "B"]), &AttributeThresholds::new());
    analyzer.observe_item(&names(&["C", "D"]), &AttributeThresholds::new());
    let pairs = analyzer.get_common_modifier_pairs(100);
    let order: Vec<(&str, &str)> = pairs.iter().map(|p| (p.0.as_str(), p.1.as_str())).collect();
    assert_eq!(order, vec![("A", "B"), ("B", "A"), ("C", "D"), ("D", "C")]);
    let report = analyzer.generate_attribute_report().unwrap();
    assert_eq!(report.common_modifier_pairs, pairs);
}

fn thresholds(s: Option<u32>, d: Option<u32>, i: Option<u32>) -> AttributeThresholds {
    AttributeThresholds { strength: s, dexterity: d, intelligence: i }
}

#[test]
fn dual_requirements_are_ordered_by_name_and_triples_are_left_out() {
    let mut analyzer = StatAnalyzer::new();
    analyzer.observe_item(&names(&["A"]), &thresholds(Some(50), None, Some(60)));
    analyzer.observe_item(&names(&["A"]), &thresholds(Some(1), Some(2), Some(3)));
    analyzer.observe_item(&names(&["A"]), &thresholds(None, None, None));
    assert_eq!(
        analyzer.requirement_distribution(StatRequirementType::Dual(CoreAttribute::Intelligence, CoreAttribute::Strength)),
        &vec![(60, 50)]
    );
    let stats = analyzer.get_requirement_statistics();
    assert_eq!(
        stats.entries,
        vec![RequirementSummary {
            shape: StatRequirementType::Dual(CoreAttribute::Intelligence, CoreAttribute::Strength),
            count: 1,
            first_total: 60,
            second_total: 50,
        }]
    );
    assert_eq!(analyzer.total_items(), 3);
}

fn batch() -> Vec<(Vec<String>, AttributeThresholds)> {
    vec![
        (names(&["A", "B"]), strength(100)),
        (names(&["B", "C"]), thresholds(None, Some(40), Some(20))),
        (names(&["A"]), thresholds(Some(10), Some(20), Some(30))),
        (names(&[]), AttributeThresholds::new()),
        (names(&["C", "A", "B"]), thresholds(None, Some(70), None)),
    ]
}

#[test]
fn merged_tables_match_sequential_aggregation() {
    let items = batch();
    let mut whole = StatAnalyzer::new();
    let mut left = StatAnalyzer::new();
    let mut right = StatAnalyzer::new();
    for (i, (n, t)) in items.iter().enumerate() {
        whole.observe_item(n, t);
        if i < 2 {
            left.observe_item(n, t);
        } else {
            right.observe_item(n, t);
        }
    }
    left.merge(&right);
    assert_eq!(left.total_items(), whole.total_items());
    for x in ["A", "B", "C"] {
        for y in ["A", "B", "C"] {
            assert_eq!(left.correlation_count(x, y), whole.correlation_count(x, y));
        }
        for a in [CoreAttribute::Strength, CoreAttribute::Dexterity, CoreAttribute::Intelligence] {
            assert_eq!(left.threshold_samples(x, a), whole.threshold_samples(x, a));
        }
    }
    assert_eq!(left.get_requirement_statistics(), whole.get_requirement_statistics());
    assert_eq!(left.analyze_attribute_correlations().unwrap().len(), whole.analyze_attribute_correlations().unwrap().len());
}

#[test]
fn common_pairs_are_strongest_first_and_above_the_minimum() {
    let mut analyzer = StatAnalyzer::new();
    analyzer.observe_item(&names(&["A", "B"]), &AttributeThresholds::new());
    analyzer.observe_item(&names(&["A", "B", "C"]), &AttributeThresholds::new());
    analyzer.observe_item(&names(&["A", "B"]), &AttributeThresholds::new());
    analyzer.observe_item(&names(&["D"]), &AttributeThresholds::new());
    let pairs = analyzer.get_common_modifier_pairs(500);
    assert_eq!(pairs.len(), 2);
    assert!(pairs.iter().all(|p| p.2 == 3));
    let all = analyzer.get_common_modifier_pairs(0);
    assert_eq!(all.len(), 6);
    for w in all.windows(2) {
        assert!(w[0].2 >= w[1].2);
    }
    assert!(StatAnalyzer::new().get_common_modifier_pairs(0).is_empty());
}

#[test]
fn report_summarises_attributes() {
    let mut analyzer = StatAnalyzer::new();
    analyzer.observe_item(&names(&["A", "B"]), &thresholds(Some(100), Some(21), None));
    analyzer.observe_item(&names(&["A"]), &thresholds(Some(51), None, None));
    let report = analyzer.generate_attribute_report().unwrap();
    assert_eq!(report.total_items_analyzed, 2);
    assert_eq!(report.attribute_correlations.len(), 2);
    let str_corr = &report.attribute_correlations[0];
    assert_eq!(str_corr.attribute, CoreAttribute::Strength);
    assert_eq!(str_corr.occurrence_count, 3);
    assert_eq!(str_corr.threshold_sum, 251);
    assert_eq!(str_corr.modifier_correlations, vec![("A".to_string(), 2), ("B".to_string(), 1)]);
    assert_eq!(report.strongest_attribute, Some(CoreAttribute::Strength));
    assert_eq!(report.most_common_threshold, Some(84));
    assert_eq!(report.common_modifier_pairs.len(), 2);
}

#[test]
fn empty_report_has_no_data() {
    let analyzer = StatAnalyzer::new();
    let report = analyzer.generate_attribute_report().unwrap();
    assert_eq!(report.total_items_analyzed, 0);
    assert!(report.attribute_correlations.is_empty());
    assert_eq!(report.strongest_attribute, None);
    assert_eq!(report.most_common_threshold, None);
    assert!(report.requirement_statistics.entries.is_empty());
}
