use wallet_alloc::ledger::{Ledger, WalletAllocation};
use wallet_alloc::records::{
    barca_targets_from_records, ledger_rows_from_records, FileCsvStore, StoreError,
};

#[test]
fn read_barca_allocations_filters_by_market() {
    let csv = "market,group,target_percent\nBullMarket,Base,55.0\nBearMarket,Base,45.0\n";
    let targets = FileCsvStore.read_barca_allocations(csv.as_bytes(), "BullMarket").ok().unwrap();
    assert_eq!(targets.len(), 1);
    assert_eq!(targets[0].barca, "Base");
    assert!((targets[0].target_percent.parse::<f64>().unwrap() - 55.0).abs() < f64::EPSILON);
}

#[test]
fn read_barca_allocations_errors_when_market_missing() {
    let csv = "market,group,target_percent\nBearMarket,Base,45.0\n";
    let err = FileCsvStore.read_barca_allocations(csv.as_bytes(), "BullMarket").err().unwrap();
    assert_eq!(err.message(), "No BARCA targets found for market 'BullMarket'");
}

#[test]
fn later_target_row_replaces_earlier_and_fields_are_trimmed() {
    let csv = "market, group ,target_percent\nBull, Base , 10\nBull,Growth,20\nBull,Base,30\n";
    let targets = FileCsvStore.read_barca_allocations(csv.as_bytes(), "Bull").ok().unwrap();
    let got: Vec<(String, String)> =
        targets.iter().map(|t| (t.barca.clone(), t.target_percent.clone())).collect();
    assert_eq!(
        got,
        vec![("Base".to_string(), "30".to_string()), ("Growth".to_string(), "20".to_string())]
    );
}

#[test]
fn target_table_without_group_column_is_rejected() {
    let csv = "market,bucket,target_percent\nBull,Base,10\n";
    match FileCsvStore.read_barca_allocations(csv.as_bytes(), "Bull") {
        Err(StoreError::MissingColumn(c)) => assert_eq!(c, "group"),
        _ => panic!("expected a missing column"),
    }
}

#[test]
fn target_table_with_ragged_row_is_rejected() {
    let csv = "market,group,target_percent\nBull,Base,10\nBull,Growth\n";
    match FileCsvStore.read_barca_allocations(csv.as_bytes(), "Bull") {
        Err(StoreError::Csv(_)) => {}
        _ => panic!("expected a CSV error"),
    }
}

#[test]
fn empty_target_table_has_no_targets() {
    match FileCsvStore.read_barca_allocations(b"", "Bull") {
        Err(StoreError::NoTargetsForMarket(m)) => assert_eq!(m, "Bull"),
        _ => panic!("expected no targets"),
    }
}

#[test]
fn ledger_import_reads_optional_columns() {
    let csv = "symbol,group,barca,target_percent,current_quantity,comments\nBTC,Core,A,50,1,cold\nETH,,B\n";
    let rows = FileCsvStore.read_wallet_allocations(csv.as_bytes()).ok().unwrap();
    assert_eq!(rows.len(), 2);
    assert_eq!(rows[0].symbol, "BTC");
    assert_eq!(rows[0].group_name.as_deref(), Some("Core"));
    assert_eq!(rows[0].barca.as_deref(), Some("A"));
    assert_eq!(rows[0].figures.target_percent.as_deref(), Some("50"));
    assert_eq!(rows[0].figures.current_quantity.as_deref(), Some("1"));
    assert_eq!(rows[0].figures.last_price, None);
    assert_eq!(rows[0].notes.as_deref(), Some("cold"));
    assert_eq!(rows[1].symbol, "ETH");
    assert_eq!(rows[1].group_name, None);
    assert_eq!(rows[1].barca.as_deref(), Some("B"));
    assert_eq!(rows[1].figures.current_quantity, None);
}

#[test]
fn ledger_import_without_symbol_column_is_rejected() {
    let csv = "group,barca\nCore,A\n";
    match FileCsvStore.read_wallet_allocations(csv.as_bytes()) {
        Err(e) => assert_eq!(e.message(), "missing column 'symbol'"),
        Ok(_) => panic!("expected an error"),
    }
}

#[test]
fn ledger_import_row_without_symbol_is_rejected() {
    let csv = "group,symbol\nCore,BTC\nCore\n";
    match FileCsvStore.read_wallet_allocations(csv.as_bytes()) {
        Err(StoreError::ShortRow(j)) => assert_eq!(j, 2),
        _ => panic!("expected a short row"),
    }
}

#[test]
fn reimporting_the_same_file_doubles_the_ledger() {
    let csv = "symbol,group,barca,target_percent,current_quantity\nBTC,Core,A,50,1\nETH,Core,A,50,2\n";
    let mut ledger = Ledger::new();
    let first = ledger.import(FileCsvStore.read_wallet_allocations(csv.as_bytes()).ok().unwrap());
    let second = ledger.import(FileCsvStore.read_wallet_allocations(csv.as_bytes()).ok().unwrap());
    assert_eq!(first, 2);
    assert_eq!(second, 2);
    assert_eq!(ledger.len(), 4);
    let rows = ledger.rows();
    assert_eq!(rows[2].symbol, "BTC");
    assert_eq!(rows[3].symbol, "ETH");
    assert_eq!(ledger.fetch_wallet_allocation_history(&"BTC".to_string()), vec![2, 0]);
}

struct Amounts {
    target_percent: Option<f64>,
    current_quantity: Option<f64>,
    last_price: Option<f64>,
}

#[test]
fn wallet_allocations_current_aggregates_quantities() {
    let wa1 = WalletAllocation {
        symbol: "BTC".to_string(),
        group_name: Some("Base".to_string()),
        barca: Some("Base".to_string()),
        notes: Some("Ledger".to_string()),
        figures: Amounts { target_percent: Some(40.0), current_quantity: Some(1.0), last_price: Some(10.0) },
    };
    let wa2 = WalletAllocation {
        symbol: "BTC".to_string(),
        group_name: Some("Base".to_string()),
        barca: Some("Base".to_string()),
        notes: Some("Binance".to_string()),
        figures: Amounts { target_percent: Some(0.0), current_quantity: Some(0.5), last_price: Some(10.0) },
    };
    let mut ledger = Ledger::new();
    ledger.insert_wallet_allocation(wa1);
    ledger.insert_wallet_allocation(wa2);

    let rows = ledger.fetch_current_wallet_allocations();
    assert_eq!(rows.len(), 1);
    let row = &rows[0];
    assert_eq!(row.name, "BTC");
    let all = ledger.rows();
    let quantity: f64 = row.members.iter().map(|&i| all[i].figures.current_quantity.unwrap_or(0.0)).sum();
    let target: f64 = row.members.iter().map(|&i| all[i].figures.target_percent.unwrap_or(0.0)).sum();
    assert!((quantity - 1.5).abs() < f64::EPSILON);
    assert_eq!(target, 40.0);
    assert!(all.iter().all(|r| r.figures.last_price == Some(10.0)));
}

fn table(lines: &[&[&str]]) -> Vec<Vec<String>> {
    lines.iter().map(|l| l.iter().map(|f| f.to_string()).collect()).collect()
}

#[test]
fn targets_from_given_records_keep_market_rows() {
    let records = table(&[
        &["market", "group", "target_percent"],
        &["Bull", "Base", "10"],
        &["Bear", "Base", "90"],
        &["Bull", "Growth", "20"],
        &["Bull", "Base", "30"],
    ]);
    let targets = barca_targets_from_records(&records, "Bull").ok().unwrap();
    let got: Vec<(String, String)> =
        targets.iter().map(|t| (t.barca.clone(), t.target_percent.clone())).collect();
    assert_eq!(
        got,
        vec![("Base".to_string(), "30".to_string()), ("Growth".to_string(), "20".to_string())]
    );
    match barca_targets_from_records(&records, "Sideways") {
        Err(StoreError::NoTargetsForMarket(m)) => assert_eq!(m, "Sideways"),
        _ => panic!("expected no targets"),
    }
    let short = table(&[&["market", "group", "target_percent"], &["Bull", "Base"]]);
    match barca_targets_from_records(&short, "Bull") {
        Err(StoreError::ShortRow(j)) => assert_eq!(j, 1),
        _ => panic!("expected a short row"),
    }
}

#[test]
fn ledger_rows_from_given_records() {
    let records = table(&[&["notes", "symbol", "barca"], &["", "BTC", "A"], &["cold", "ETH"]]);
    let rows = ledger_rows_from_records(&records).ok().unwrap();
    assert_eq!(rows.len(), 2);
    assert_eq!(rows[0].symbol, "BTC");
    assert_eq!(rows[0].notes, None);
    assert_eq!(rows[0].barca.as_deref(), Some("A"));
    assert_eq!(rows[0].group_name, None);
    assert_eq!(rows[1].notes.as_deref(), Some("cold"));
    assert_eq!(rows[1].barca, None);
    assert_eq!(ledger_rows_from_records(&Vec::new()).ok().unwrap().len(), 0);
    match ledger_rows_from_records(&table(&[&["group"], &["Core"]])) {
        Err(StoreError::MissingColumn(c)) => assert_eq!(c, "symbol"),
        _ => panic!("expected a missing column"),
    }
}
