use poe_item_stats::modifier::ModifierAnalyzer;
use poe_item_stats::numeric::{parse_amount, parse_i32, parse_u32, FIXED_SCALE};
use poe_item_stats::poe_item::{
    Account, ExtendedData, HashData, ItemData, ItemResponse, ListingData, Magnitude, ModBase, ModData,
    ModInfo, Price,
};
use poe_item_stats::stats::{ModifierStats, StatisticalMeasures};

fn mean(m: &StatisticalMeasures, count: u32) -> f64 {
    m.sum as f64 / count as f64 / FIXED_SCALE as f64
}

fn median(m: &StatisticalMeasures) -> f64 {
    m.median_twice as f64 / 2.0 / FIXED_SCALE as f64
}

fn std_dev(m: &StatisticalMeasures, count: u32) -> f64 {
    let n = count as f64;
    let variance = (n * m.sum_of_squares as f64 - (m.sum as f64) * (m.sum as f64)) / (n * n);
    variance.sqrt() / FIXED_SCALE as f64
}

fn amount(x: f64) -> i64 {
    (x * FIXED_SCALE as f64).round() as i64
}

#[test]
fn test_modifier_stats_calculations() {
    let mut stats = ModifierStats::new("test_mod".to_string());
    stats.add_data_point(amount(10.0), amount(100.0));
    stats.add_data_point(amount(20.0), amount(200.0));
    stats.add_data_point(amount(30.0), amount(300.0));

    assert_eq!(stats.total_occurrences(), 3);
    assert_eq!(mean(stats.measures(), 3), 20.0);
    assert_eq!(median(stats.measures()), 20.0);
    assert_eq!(stats.measures().min, amount(10.0));
    assert_eq!(stats.measures().max, amount(30.0));
}

#[test]
fn new_stats_are_zero() {
    let stats = ModifierStats::new("m".to_string());
    assert_eq!(stats.total_occurrences(), 0);
    assert_eq!(
        *stats.measures(),
        StatisticalMeasures { sum: 0, sum_of_squares: 0, median_twice: 0, min: 0, max: 0 }
    );
}

#[test]
fn of_the_lion_scenario() {
    let mut analyzer = ModifierAnalyzer::new(vec![]);
    let name = "of the Lion".to_string();
    analyzer.observe(&name, amount(17.0), amount(1.0));
    analyzer.observe(&name, amount(20.0), amount(2.0));
    analyzer.observe(&name, amount(18.0), amount(1.5));
    let stats = analyzer.get_stats("of the Lion").unwrap();
    assert_eq!(stats.total_occurrences(), 3);
    assert!((mean(stats.measures(), 3) - 18.333333).abs() < 1e-5);
    assert_eq!(median(stats.measures()), 18.0);
    assert_eq!(stats.measures().min, amount(17.0));
    assert_eq!(stats.measures().max, amount(20.0));
    assert_eq!(stats.price_points(), &vec![(17_000, 1_000), (20_000, 2_000), (18_000, 1_500)]);
    assert!(analyzer.get_stats("of the Fox").is_none());
    assert_eq!(analyzer.observation_count(), 3);
}

#[test]
fn median_matches_sorted_oracle_in_any_order() {
    let values = [5.0, 1.0, 4.0, 2.0, 3.0, 9.0];
    let mut shuffled = ModifierStats::new("m".to_string());
    for v in values {
        shuffled.add_data_point(amount(v), 0);
    }
    let mut sorted_values = values.to_vec();
    sorted_values.sort_by(|a, b| a.partial_cmp(b).unwrap());
    let mut sorted = ModifierStats::new("m".to_string());
    for v in &sorted_values {
        sorted.add_data_point(amount(*v), 0);
    }
    let oracle = (sorted_values[2] + sorted_values[3]) / 2.0;
    assert_eq!(median(shuffled.measures()), oracle);
    assert_eq!(median(sorted.measures()), oracle);
    assert_eq!(median(shuffled.measures()), 3.5);
}

#[test]
fn single_value_median_and_even_count_average() {
    let mut stats = ModifierStats::new("m".to_string());
    stats.add_data_point(amount(7.0), 0);
    assert_eq!(median(stats.measures()), 7.0);
    stats.add_data_point(amount(8.0), 0);
    assert_eq!(median(stats.measures()), 7.5);
}

#[test]
fn population_standard_deviation() {
    let mut stats = ModifierStats::new("m".to_string());
    for v in [2.0, 4.0, 4.0, 4.0, 5.0, 5.0, 7.0, 9.0] {
        stats.add_data_point(amount(v), 0);
    }
    assert!((std_dev(stats.measures(), 8) - 2.0).abs() < 1e-9);
    assert_eq!(mean(stats.measures(), 8), 5.0);
}

#[test]
fn negative_values_keep_min_and_max() {
    let mut stats = ModifierStats::new("m".to_string());
    stats.add_data_point(amount(-3.5), 0);
    stats.add_data_point(amount(2.0), 0);
    assert_eq!(stats.measures().min, -3_500);
    assert_eq!(stats.measures().max, 2_000);
    assert_eq!(stats.measures().sum, -1_500);
}

#[test]
fn merged_values_match_sequential_observation() {
    let batch = [("A", 1.0, 10.0), ("B", 2.0, 20.0), ("A", 3.0, 30.0), ("A", 0.5, 5.0), ("B", 4.0, 40.0)];
    let mut whole = ModifierAnalyzer::new(vec![]);
    let mut left = ModifierAnalyzer::new(vec![]);
    let mut right = ModifierAnalyzer::new(vec![]);
    for (i, (n, v, p)) in batch.iter().enumerate() {
        let name = n.to_string();
        whole.observe(&name, amount(*v), amount(*p));
        if i < 2 {
            left.observe(&name, amount(*v), amount(*p));
        } else {
            right.observe(&name, amount(*v), amount(*p));
        }
    }
    left.merge(&right);
    for n in ["A", "B"] {
        let a = whole.get_stats(n).unwrap();
        let b = left.get_stats(n).unwrap();
        assert_eq!(a.price_points(), b.price_points());
        assert_eq!(a.measures(), b.measures());
        assert_eq!(a.total_occurrences(), b.total_occurrences());
    }
}

#[test]
fn price_range_is_kept() {
    let mut analyzer = ModifierAnalyzer::new(vec![0, 10_000]);
    assert_eq!(analyzer.get_price_range(), (None, None));
    analyzer.set_price_range(1_000, 5_000);
    assert_eq!(analyzer.get_price_range(), (Some(1_000), Some(5_000)));
    assert_eq!(analyzer.value_ranges(), &vec![0, 10_000]);
}

fn listing(price: Option<&str>, mods: Vec<(&str, &str)>) -> ItemResponse {
    ItemResponse {
        id: "id".to_string(),
        item: ItemData {
            base_type: "Base".to_string(),
            name: "Name".to_string(),
            explicit_mods: mods.iter().map(|(n, _)| n.to_string()).collect(),
            extended: ExtendedData {
                mods: ModData {
                    explicit: mods
                        .iter()
                        .map(|(n, v)| ModInfo {
                            base: ModBase {
                                name: n.to_string(),
                                tier: "R1".to_string(),
                                magnitudes: vec![Magnitude { hash: "h".to_string(), min: v.to_string(), max: v.to_string() }],
                            },
                        })
                        .collect(),
                },
                hashes: HashData { explicit: vec![] },
            },
            frame_type: 2,
            requirements: vec![],
            properties: vec![],
            rarity: "Rare".to_string(),
            type_line: "Base".to_string(),
            ilvl: 70,
        },
        listing: ListingData {
            price: price.map(|p| Price { amount: p.to_string(), currency: "exalted".to_string() }),
            account: Account { name: "a".to_string(), realm: "poe2".to_string() },
        },
    }
}

#[test]
fn process_item_uses_listing_price_and_parsable_values() {
    let mut analyzer = ModifierAnalyzer::new(vec![]);
    analyzer.process_item(&listing(Some("2.5"), vec![("of the Lion", "17"), ("Broken", "n/a")]));
    let lion = analyzer.get_stats("of the Lion").unwrap();
    assert_eq!(lion.price_points(), &vec![(17_000, 2_500)]);
    assert!(analyzer.get_stats("Broken").is_none());
}

#[test]
fn process_item_without_numeric_price_records_nothing() {
    let mut analyzer = ModifierAnalyzer::new(vec![]);
    analyzer.process_item(&listing(Some("cheap"), vec![("of the Lion", "17")]));
    analyzer.process_item(&listing(None, vec![("of the Lion", "17")]));
    assert!(analyzer.get_stats("of the Lion").is_none());
}

#[test]
fn amounts_parse_to_thousandths() {
    assert_eq!(parse_amount("17"), Some(17_000));
    assert_eq!(parse_amount("1.5"), Some(1_500));
    assert_eq!(parse_amount("-0.25"), Some(-250));
    assert_eq!(parse_amount("+3.125"), Some(3_125));
    assert_eq!(parse_amount(".5"), Some(500));
    assert_eq!(parse_amount("5."), Some(5_000));
    assert_eq!(parse_amount("1.2345"), Some(1_235));
    assert_eq!(parse_amount("2.71828"), Some(2_718));
    assert_eq!(parse_amount("0.0004"), Some(0));
    assert_eq!(parse_amount("-0.9995"), Some(-1_000));
    assert_eq!(parse_amount("1.23x4"), None);
    assert_eq!(parse_amount("abc"), None);
    assert_eq!(parse_amount(""), None);
    assert_eq!(parse_amount("."), None);
    assert_eq!(parse_amount("1.2.3"), None);
    assert_eq!(parse_amount("100000000000"), Some(100_000_000_000_000));
    assert_eq!(parse_amount("100000000000.001"), None);
}

#[test]
fn unsigned_and_signed_integers_parse() {
    assert_eq!(parse_u32("105"), Some(105));
    assert_eq!(parse_u32("+7"), Some(7));
    assert_eq!(parse_u32("4294967295"), Some(u32::MAX));
    assert_eq!(parse_u32("4294967296"), None);
    assert_eq!(parse_u32("-1"), None);
    assert_eq!(parse_u32("1a"), None);
    assert_eq!(parse_u32(""), None);
    assert_eq!(parse_i32("-12"), Some(-12));
    assert_eq!(parse_i32("-2147483648"), Some(i32::MIN));
    assert_eq!(parse_i32("2147483648"), None);
    assert_eq!(parse_i32("R4"), None);
}
