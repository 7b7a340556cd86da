use wallet_alloc::engine::{
    actual_values_by_barca, aggregate_assets, build_per_barca, compute_allocations, AllocationPlan, AssetSlot, BarcaTarget,
    NameGroup,
};
use wallet_alloc::ledger::WalletAllocation;
use wallet_alloc::quotes::{build_index, CryptoData, MockCryptoProvider};

struct Amounts {
    target_percent: f64,
    current_quantity: f64,
}

fn crypto(symbol: &str, price: f64) -> CryptoData<f64> {
    CryptoData {
        id: 0,
        name: symbol.to_string(),
        symbol: symbol.to_string(),
        cmc_rank: 1,
        quote: price,
    }
}

fn allocation(symbol: &str, group: &str, barca: &str, target: f64, qty: f64) -> WalletAllocation<Amounts> {
    WalletAllocation {
        symbol: symbol.to_string(),
        group_name: Some(group.to_string()),
        barca: Some(barca.to_string()),
        notes: None,
        figures: Amounts { target_percent: target, current_quantity: qty },
    }
}

fn targets(pairs: &[(&str, f64)]) -> Vec<BarcaTarget<f64>> {
    pairs
        .iter()
        .map(|(b, t)| BarcaTarget { barca: b.to_string(), target_percent: *t })
        .collect()
}

fn slot_value(slot: &AssetSlot, ledger: &[WalletAllocation<Amounts>], quotes: &[CryptoData<f64>]) -> f64 {
    slot.rows.iter().map(|&r| ledger[r].figures.current_quantity * quotes[slot.quote].quote).sum()
}

fn slot_quantity(slot: &AssetSlot, ledger: &[WalletAllocation<Amounts>]) -> f64 {
    slot.rows.iter().map(|&r| ledger[r].figures.current_quantity).sum()
}

fn slot_target(slot: &AssetSlot, ledger: &[WalletAllocation<Amounts>]) -> f64 {
    slot.rows.iter().map(|&r| ledger[r].figures.target_percent).sum()
}

fn group_value(group: &NameGroup, plan: &AllocationPlan, ledger: &[WalletAllocation<Amounts>], quotes: &[CryptoData<f64>]) -> f64 {
    group.members.iter().map(|&k| slot_value(&plan.per_asset[k], ledger, quotes)).sum()
}

fn percent_of_total(value: f64, total: f64) -> f64 {
    if total > 0.0 {
        (value / total) * 100.0
    } else {
        0.0
    }
}

fn total_value(plan: &AllocationPlan, ledger: &[WalletAllocation<Amounts>], quotes: &[CryptoData<f64>]) -> f64 {
    plan.per_asset.iter().map(|s| slot_value(s, ledger, quotes)).sum()
}

#[test]
fn compute_snapshot_aggregates_values_and_percentages() {
    let allocations = vec![
        allocation("BTC", "Core", "Base", 60.0, 1.0),
        allocation("ETH", "Growth", "Growth", 40.0, 10.0),
    ];
    let cryptos = vec![crypto("BTC", 30_000.0), crypto("ETH", 2_000.0)];
    let barca_targets = targets(&[("Base", 55.0), ("Growth", 45.0)]);

    let plan = compute_allocations(&allocations, &cryptos, &barca_targets);
    let total = total_value(&plan, &allocations, &cryptos);

    assert_eq!(plan.per_asset.len(), 2);
    let btc = plan.per_asset.iter().find(|a| a.symbol == "BTC").unwrap();
    let btc_value = slot_value(btc, &allocations, &cryptos);
    let btc_percent = percent_of_total(btc_value, total);
    assert!((btc_value - 30_000.0).abs() < f64::EPSILON);
    assert!((btc_percent - 60.0).abs() < 1e-6);
    assert!((btc_percent - slot_target(btc, &allocations)).abs() < 1e-6);

    let eth = plan.per_asset.iter().find(|a| a.symbol == "ETH").unwrap();
    let eth_value = slot_value(eth, &allocations, &cryptos);
    let eth_percent = percent_of_total(eth_value, total);
    assert!((eth_value - 20_000.0).abs() < f64::EPSILON);
    assert!((eth_percent - 40.0).abs() < 1e-6);
    assert!((eth_percent - slot_target(eth, &allocations)).abs() < 1e-6);

    assert_eq!(plan.per_group.len(), 2);
    let core = plan.per_group.iter().find(|g| g.name == "Core").unwrap();
    let core_value = group_value(core, &plan, &allocations, &cryptos);
    let core_target: f64 = core.members.iter().map(|&k| slot_target(&plan.per_asset[k], &allocations)).sum();
    assert!((core_value - 30_000.0).abs() < f64::EPSILON);
    assert!((percent_of_total(core_value, total) - 60.0).abs() < 1e-6);
    assert!((percent_of_total(core_value, total) - core_target).abs() < 1e-6);

    assert_eq!(plan.per_barca.len(), 2);
    let base = plan.per_barca.iter().find(|l| l.barca == "Base").unwrap();
    let base_value = group_value(&plan.per_barca_actual[base.actual.unwrap()], &plan, &allocations, &cryptos);
    let base_percent = percent_of_total(base_value, total);
    let base_target = barca_targets[base.target.unwrap()].target_percent;
    assert!((base_percent - 60.0).abs() < 1e-6);
    assert!((base_percent - base_target - 5.0).abs() < 1e-6);

    assert_eq!(plan.per_barca_actual.len(), 2);
    let growth = plan.per_barca_actual.iter().find(|b| b.name == "Growth").unwrap();
    assert!((group_value(growth, &plan, &allocations, &cryptos) - 20_000.0).abs() < f64::EPSILON);
}

#[test]
fn compute_snapshot_ignores_assets_without_market_data() {
    let allocations = vec![
        allocation("BTC", "Core", "Base", 100.0, 1.0),
        allocation("UNKNOWN", "Core", "Base", 20.0, 5.0),
    ];
    let cryptos = vec![crypto("BTC", 40_000.0)];
    let barca_targets = targets(&[("Base", 100.0)]);

    let plan = compute_allocations(&allocations, &cryptos, &barca_targets);

    assert_eq!(plan.per_asset.len(), 1);
    let btc = &plan.per_asset[0];
    assert_eq!(btc.symbol, "BTC");
    assert!((slot_value(btc, &allocations, &cryptos) - 40_000.0).abs() < f64::EPSILON);
}

#[test]
fn aggregate_assets_merges_duplicate_symbols() {
    let allocations = vec![
        allocation("BTC", "Core", "Base", 50.0, 0.5),
        allocation("BTC", "Core", "Base", 25.0, 0.25),
    ];
    let cryptos = vec![crypto("BTC", 40_000.0)];
    let index = build_index(&cryptos);

    let assets = aggregate_assets(&allocations, &index);
    let total: f64 = assets.iter().map(|s| slot_value(s, &allocations, &cryptos)).sum();
    assert!((total - 30_000.0).abs() < f64::EPSILON);
    let entry = assets
        .iter()
        .find(|s| s.symbol == "BTC" && s.group == "Core" && s.barca == "Base")
        .expect("missing aggregate");
    assert!((slot_quantity(entry, &allocations) - 0.75).abs() < f64::EPSILON);
    assert!((slot_target(entry, &allocations) - 75.0).abs() < f64::EPSILON);
}

#[test]
fn build_per_barca_adds_untracked_targets() {
    // One asset: SOL in Growth/Growth, 10 units at 100, worth 1000 of 1000.
    let allocations = vec![allocation("SOL", "Growth", "Growth", 20.0, 10.0)];
    let cryptos = vec![crypto("SOL", 100.0)];
    let assets = aggregate_assets(&allocations, &build_index(&cryptos));
    let per_barca_actual = actual_values_by_barca(&assets);
    let bucket_value = |b: &NameGroup| -> f64 {
        b.members.iter().map(|&k| slot_value(&assets[k], &allocations, &cryptos)).sum()
    };
    let total = 1_000.0;
    let barca_targets = targets(&[("Base", 50.0)]);

    let per_barca = build_per_barca(&per_barca_actual, &barca_targets);

    assert_eq!(per_barca.len(), 2);
    let base = per_barca.iter().find(|row| row.barca == "Base").expect("target BARCA missing");
    let base_target = barca_targets[base.target.unwrap()].target_percent;
    let base_value = base.actual.map(|b| bucket_value(&per_barca_actual[b])).unwrap_or(0.0);
    assert!((base_target - 50.0).abs() < f64::EPSILON);
    assert!(percent_of_total(base_value, total).abs() < 1e-6);

    let growth = per_barca.iter().find(|row| row.barca == "Growth").expect("actual BARCA missing");
    assert!(growth.target.is_none());
    let growth_percent = percent_of_total(bucket_value(&per_barca_actual[growth.actual.unwrap()]), total);
    assert!((growth_percent - 100.0).abs() < 1e-6);
    assert!((growth_percent - 0.0 - 100.0).abs() < 1e-6);

    assert_eq!(per_barca_actual.len(), 1);
    assert_eq!(per_barca_actual[0].name, "Growth");
    assert!((percent_of_total(bucket_value(&per_barca_actual[0]), total) - 100.0).abs() < 1e-6);
}

#[test]
fn test_compute_allocations_happy_path() {
    let allocations = vec![
        allocation("BTC", "Core", "A", 50.0, 1.0),
        allocation("ETH", "Core", "A", 50.0, 2.0),
    ];
    let cryptos = vec![crypto("BTC", 10.0), crypto("ETH", 5.0)];
    let barca_targets = targets(&[("A", 100.0)]);

    let plan = compute_allocations(&allocations, &cryptos, &barca_targets);
    assert_eq!(plan.per_asset.len(), 2);
}

#[test]
fn test_compute_allocations_unknown_symbol() {
    let allocations = vec![allocation("UNKNOWN", "Core", "A", 100.0, 1.0)];
    let cryptos = vec![crypto("BTC", 10.0)];
    let barca_targets: Vec<BarcaTarget<f64>> = vec![];

    let plan = compute_allocations(&allocations, &cryptos, &barca_targets);
    assert_eq!(plan.per_asset.len(), 0);
}

#[test]
fn test_compute_allocations_empty_input() {
    let allocations: Vec<WalletAllocation<Amounts>> = vec![];
    let cryptos: Vec<CryptoData<f64>> = vec![];
    let barca_targets: Vec<BarcaTarget<f64>> = vec![];

    let plan = compute_allocations(&allocations, &cryptos, &barca_targets);
    assert!(plan.per_asset.is_empty());
    assert!(plan.per_group.is_empty());
    assert!(plan.per_barca.is_empty());
}

#[test]
fn asset_values_sum_to_wallet_total() {
    let allocations = vec![
        allocation("BTC", "Core", "Base", 40.0, 0.5),
        allocation("ETH", "Core", "Growth", 30.0, 3.0),
        allocation("SOL", "Alt", "Growth", 30.0, 20.0),
        allocation("BTC", "Core", "Base", 0.0, 0.25),
    ];
    let cryptos = vec![crypto("BTC", 40_000.0), crypto("ETH", 2_000.0), crypto("SOL", 100.0)];
    let plan = compute_allocations(&allocations, &cryptos, &targets(&[("Base", 50.0)]));
    let ledger_total: f64 = allocations
        .iter()
        .map(|a| {
            let q = cryptos.iter().rev().find(|c| c.symbol == a.symbol).unwrap();
            a.figures.current_quantity * q.quote
        })
        .sum();
    let total = total_value(&plan, &allocations, &cryptos);
    assert_eq!(plan.per_asset.len(), 3);
    assert!((total - ledger_total).abs() < 1e-6);
    assert!((total - 38_000.0).abs() < 1e-6);
    let groups_total: f64 = plan.per_group.iter().map(|g| group_value(g, &plan, &allocations, &cryptos)).sum();
    assert!((groups_total - total).abs() < 1e-6);
    let buckets_total: f64 = plan.per_barca_actual.iter().map(|g| group_value(g, &plan, &allocations, &cryptos)).sum();
    assert!((buckets_total - total).abs() < 1e-6);
}

#[test]
fn zero_total_gives_zero_percent_and_negative_target_deviation() {
    let allocations = vec![allocation("BTC", "Core", "Base", 60.0, 0.0)];
    let cryptos = vec![crypto("BTC", 40_000.0)];
    let plan = compute_allocations(&allocations, &cryptos, &targets(&[("Base", 50.0)]));
    let total = total_value(&plan, &allocations, &cryptos);
    assert_eq!(total, 0.0);
    let slot = &plan.per_asset[0];
    let percent = percent_of_total(slot_value(slot, &allocations, &cryptos), total);
    assert_eq!(percent, 0.0);
    assert_eq!(percent - slot_target(slot, &allocations), -60.0);
}

#[test]
fn reconciliation_keeps_target_only_and_holding_only_buckets() {
    let allocations = vec![allocation("SOL", "Alt", "Growth", 0.0, 10.0)];
    let cryptos = vec![crypto("SOL", 100.0)];
    let plan = compute_allocations(&allocations, &cryptos, &targets(&[("Base", 50.0)]));
    assert_eq!(plan.per_barca.len(), 2);
    assert_eq!(plan.per_barca[0].barca, "Base");
    assert_eq!(plan.per_barca[0].target, Some(0));
    assert_eq!(plan.per_barca[0].actual, None);
    assert_eq!(plan.per_barca[1].barca, "Growth");
    assert_eq!(plan.per_barca[1].target, None);
    assert_eq!(plan.per_barca[1].actual, Some(0));
}

#[test]
fn missing_tags_group_under_empty_name() {
    let mut row = allocation("BTC", "x", "y", 10.0, 1.0);
    row.group_name = None;
    row.barca = None;
    let plan = compute_allocations(&vec![row], &vec![crypto("BTC", 1.0)], &targets(&[]));
    assert_eq!(plan.per_asset[0].group, "");
    assert_eq!(plan.per_asset[0].barca, "");
    assert_eq!(plan.per_group[0].name, "");
}

#[test]
fn later_listing_of_a_symbol_wins() {
    let cryptos = vec![crypto("BTC", 1.0), crypto("ETH", 2.0), crypto("BTC", 3.0)];
    let index = build_index(&cryptos);
    assert_eq!(index.lookup(&"BTC".to_string()), Some(2));
    assert_eq!(index.lookup(&"ETH".to_string()), Some(1));
    assert_eq!(index.lookup(&"DOGE".to_string()), None);
}

#[test]
fn mock_provider_keeps_its_listings() {
    let provider = MockCryptoProvider::new(vec![crypto("BTC", 10.0)]);
    assert_eq!(provider.data.len(), 1);
    assert_eq!(provider.data[0].symbol, "BTC");
}
