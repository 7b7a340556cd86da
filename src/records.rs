//! The delimited files that seed the library: the bucket target table and
//! the ledger import file. The CSV layer (quoting, trimming) is the csv
//! crate's; what the columns mean is decided here.

use vstd::prelude::*;
use vstd::string::StringExecFns;
use crate::engine::{names_distinct, BarcaTarget};
use crate::ledger::WalletAllocation;
use crate::text::{last_position, lemma_last_position_bounds, position_of, texts};

verus! {

#[verifier::external_type_specification]
#[verifier::external_body]
pub struct ExCsvError(csv::Error);

/// The records of a CSV text (every field trimmed, the header row kept as
/// the first record), or `None` where the text is not valid CSV.
pub uninterp spec fn csv_table(content: Seq<u8>, flexible: bool) -> Option<Seq<Seq<Seq<char>>>>;

/// The field texts of a list of records.
pub open spec fn table_view(rows: Seq<Vec<String>>) -> Seq<Seq<Seq<char>>> {
    Seq::new(rows.len(), |i: int| texts(rows[i]@))
}

/// Relies on csv::ReaderBuilder (no header handling, `Trim::All`, the given
/// flexibility) and its `records` iterator: the result is determined by the
/// bytes and the flag alone.
#[verifier::external_body]
fn csv_records(content: &[u8], flexible: bool) -> (r: Result<Vec<Vec<String>>, csv::Error>)
    ensures
        match r {
            Ok(rows) => csv_table(content@, flexible) == Some(table_view(rows@)),
            Err(_) => csv_table(content@, flexible) is None,
        },
{
    let mut reader = csv::ReaderBuilder::new().has_headers(false).flexible(flexible).trim(
        csv::Trim::All,
    ).from_reader(content);
    let mut rows = Vec::new();
    for record in reader.records() {
        rows.push(record?.iter().map(|f| f.to_string()).collect());
    }
    Ok(rows)
}

/// Relies on the `Display` of csv::Error for a readable description.
#[verifier::external_body]
fn csv_error_text(e: &csv::Error) -> String {
    e.to_string()
}

/// Why a delimited file was rejected.
pub enum StoreError {
    /// The text is not valid CSV.
    Csv(csv::Error),
    /// The header row lacks a required column.
    MissingColumn(String),
    /// The record at this position (the header is 0) lacks a required field.
    ShortRow(usize),
    /// No target row names the requested market.
    NoTargetsForMarket(String),
}

impl StoreError {
    /// A readable description of the error.
    pub fn message(&self) -> (r: String)
        ensures
            self matches StoreError::NoTargetsForMarket(m) ==> r@ == "No BARCA targets found for market '"@
                + m@ + "'"@,
            self matches StoreError::MissingColumn(c) ==> r@ == "missing column '"@ + c@ + "'"@,
            self matches StoreError::ShortRow(_) ==> r@ == "a record lacks a required field"@,
    {
        match self {
            StoreError::Csv(e) => csv_error_text(e),
            StoreError::MissingColumn(c) => {
                let mut s = "missing column '".to_owned();
                s.append(c.as_str());
                s.append("'");
                s
            },
            StoreError::ShortRow(_) => "a record lacks a required field".to_owned(),
            StoreError::NoTargetsForMarket(m) => {
                let mut s = "No BARCA targets found for market '".to_owned();
                s.append(m.as_str());
                s.append("'");
                s
            },
        }
    }
}

/// Position of a column in the header row.
fn column(header: &Vec<String>, name: &str) -> (r: Option<usize>)
    ensures
        match r {
            Some(i) => i < header@.len() && last_position(texts(header@), name@) == Some(i as int),
            None => last_position(texts(header@), name@) is None,
        },
{
    position_of(header, &name.to_owned())
}

/// The `(bucket, target)` pairs of a target list.
pub open spec fn target_pairs(v: Seq<BarcaTarget<String>>) -> Seq<(Seq<char>, Seq<char>)> {
    Seq::new(v.len(), |i: int| (v[i].barca@, v[i].target_percent@))
}

/// The keys of a list of pairs.
pub open spec fn pair_keys(list: Seq<(Seq<char>, Seq<char>)>) -> Seq<Seq<char>> {
    Seq::new(list.len(), |i: int| list[i].0)
}

/// A map update on a list of pairs: the value of an existing key is
/// replaced in place, a new key goes last.
pub open spec fn upsert(list: Seq<(Seq<char>, Seq<char>)>, k: Seq<char>, v: Seq<char>) -> Seq<
    (Seq<char>, Seq<char>),
> {
    match last_position(pair_keys(list), k) {
        Some(i) => list.update(i, (k, v)),
        None => list.push((k, v)),
    }
}

/// The targets of one market, read from the data records in order: column
/// `m` holds the market, `g` the bucket and `t` the target; a later row for
/// a bucket replaces an earlier one.
pub open spec fn market_targets(
    rows: Seq<Seq<Seq<char>>>,
    m: int,
    g: int,
    t: int,
    market: Seq<char>,
) -> Seq<(Seq<char>, Seq<char>)>
    decreases rows.len(),
{
    if rows.len() == 0 {
        Seq::empty()
    } else {
        let prev = market_targets(rows.drop_last(), m, g, t, market);
        let r = rows.last();
        if r[m] == market {
            upsert(prev, r[g], r[t])
        } else {
            prev
        }
    }
}

/// Position of the first data record (the header is 0) with at most
/// `need` fields.
pub open spec fn first_short(tab: Seq<Seq<Seq<char>>>, need: int) -> Option<int> {
    if exists|j: int| 1 <= j < tab.len() && tab[j].len() <= need {
        Some(choose|j: int| 1 <= j < tab.len() && tab[j].len() <= need && forall|i: int| 1 <= i < j ==> tab[i].len() > need)
    } else {
        None
    }
}

/// The greatest of three column positions.
pub open spec fn max3(a: int, b: int, c: int) -> int {
    if a >= b && a >= c {
        a
    } else if b >= c {
        b
    } else {
        c
    }
}

/// What reading the target table `tab` for `market` gives.
pub open spec fn barca_outcome(
    tab: Seq<Seq<Seq<char>>>,
    market: Seq<char>,
    r: Result<Vec<BarcaTarget<String>>, StoreError>,
) -> bool {
    if tab.len() == 0 {
        r matches Err(StoreError::NoTargetsForMarket(x)) && x@ == market
    } else {
        let header = tab[0];
        let m = last_position(header, "market"@);
        let g = last_position(header, "group"@);
        let t = last_position(header, "target_percent"@);
        if m is None {
            r matches Err(StoreError::MissingColumn(c)) && c@ == "market"@
        } else if g is None {
            r matches Err(StoreError::MissingColumn(c)) && c@ == "group"@
        } else if t is None {
            r matches Err(StoreError::MissingColumn(c)) && c@ == "target_percent"@
        } else {
            let need = max3(m->0, g->0, t->0);
            match first_short(tab, need) {
                Some(j) => r matches Err(StoreError::ShortRow(x)) && x as int == j,
                None => {
                    let found = market_targets(tab.drop_first(), m->0, g->0, t->0, market);
                    if found.len() == 0 {
                        r matches Err(StoreError::NoTargetsForMarket(x)) && x@ == market
                    } else {
                        r matches Ok(v) && target_pairs(v@) == found
                    }
                },
            }
        }
    }
}

/// Reads delimited tables; the bytes come from wherever the caller keeps
/// the files.
pub struct FileCsvStore;

/// Finds the first data record with at most `need` fields.
fn find_short(rows: &Vec<Vec<String>>, need: usize) -> (r: Option<usize>)
    ensures
        match r {
            Some(x) => first_short(table_view(rows@), need as int) == Some(x as int),
            None => first_short(table_view(rows@), need as int) is None,
        },
{
    let ghost tab = table_view(rows@);
    let mut j: usize = 1;
    while j < rows.len()
        invariant
            tab == table_view(rows@),
            1 <= j,
            forall|i: int| 1 <= i < j && i < tab.len() ==> tab[i].len() > need,
        decreases rows.len() - j,
    {
        if rows[j].len() <= need {
            proof {
                assert(tab[j as int].len() <= need);
                let c = choose|c: int|
                    1 <= c < tab.len() && tab[c].len() <= need && forall|i: int|
                        1 <= i < c ==> tab[i].len() > need;
                if c < j {
                    assert(tab[c].len() > need);
                } else if c > j {
                    assert(tab[j as int].len() > need);
                }
            }
            return Some(j);
        }
        j = j + 1;
    }
    None
}

impl FileCsvStore {
    /// Reads the bucket target table (columns `market`, `group`,
    /// `target_percent`; the target is left as text) and keeps the rows of
    /// `current_market`; a market with no row is an error.
    pub fn read_barca_allocations(&self, content: &[u8], current_market: &str) -> (r: Result<
        Vec<BarcaTarget<String>>,
        StoreError,
    >)
        ensures
            match csv_table(content@, false) {
                None => r matches Err(StoreError::Csv(_)),
                Some(tab) => barca_outcome(tab, current_market@, r),
            },
    {
        match csv_records(content, false) {
            Ok(rows) => barca_targets_from_records(&rows, current_market),
            Err(e) => Err(StoreError::Csv(e)),
        }
    }
}

/// The targets of `current_market` in the records of a target table (the
/// first record is the header); see `FileCsvStore::read_barca_allocations`.
pub fn barca_targets_from_records(rows: &Vec<Vec<String>>, current_market: &str) -> (r: Result<
    Vec<BarcaTarget<String>>,
    StoreError,
>)
    ensures
        barca_outcome(table_view(rows@), current_market@, r),
{
    let ghost tab = table_view(rows@);
    let market = current_market.to_owned();
    if rows.len() == 0 {
        return Err(StoreError::NoTargetsForMarket(market));
    }
    proof {
        assert(tab[0] == texts(rows@[0]@));
    }
    let m = match column(&rows[0], "market") {
        Some(c) => c,
        None => {
            return Err(StoreError::MissingColumn("market".to_owned()));
        },
    };
    let g = match column(&rows[0], "group") {
        Some(c) => c,
        None => {
            return Err(StoreError::MissingColumn("group".to_owned()));
        },
    };
    let t = match column(&rows[0], "target_percent") {
        Some(c) => c,
        None => {
            return Err(StoreError::MissingColumn("target_percent".to_owned()));
        },
    };
    let need: usize = if m >= g && m >= t {
        m
    } else if g >= t {
        g
    } else {
        t
    };
    if let Some(j) = find_short(&rows, need) {
        return Err(StoreError::ShortRow(j));
    }
    proof {
        assert forall|j: int| 1 <= j < tab.len() implies tab[j].len() > need by {
            if tab[j].len() <= need {
                assert(exists|c: int| 1 <= c < tab.len() && tab[c].len() <= need);
                let c = choose|c: int| 1 <= c < tab.len() && tab[c].len() <= need;
                assert(first_short(tab, need as int) is Some) by {
                    lemma_first_short_exists(tab, need as int, c);
                }
            }
        }
    }
    let mut found: Vec<BarcaTarget<String>> = Vec::new();
    let mut keys: Vec<String> = Vec::new();
    let mut j: usize = 1;
    proof {
        assert(tab.subrange(1, 1) =~= Seq::<Seq<Seq<char>>>::empty());
        assert(target_pairs(found@) =~= Seq::<(Seq<char>, Seq<char>)>::empty());
        assert(texts(keys@) =~= pair_keys(target_pairs(found@)));
    }
    while j < rows.len()
        invariant
            tab == table_view(rows@),
            1 <= j <= rows@.len(),
            market@ == current_market@,
            m <= need,
            g <= need,
            t <= need,
            forall|x: int| 1 <= x < tab.len() ==> tab[x].len() > need,
            target_pairs(found@) == market_targets(
                tab.subrange(1, j as int),
                m as int,
                g as int,
                t as int,
                current_market@,
            ),
            texts(keys@) == pair_keys(target_pairs(found@)),
        decreases rows.len() - j,
    {
        let ghost prev = target_pairs(found@);
        proof {
            assert(tab[j as int] == texts(rows@[j as int]@));
            assert(tab[j as int].len() > need);
            assert(tab.subrange(1, j + 1).drop_last() =~= tab.subrange(1, j as int));
            assert(tab.subrange(1, j + 1).last() == tab[j as int]);
        }
        proof {
            assert(tab[j as int][m as int] == rows@[j as int]@[m as int]@);
        }
        if rows[j][m] == market {
            let bucket = rows[j][g].clone();
            let target = rows[j][t].clone();
            let ghost old_keys = keys@;
            proof {
                assert(tab[j as int][m as int] == rows@[j as int]@[m as int]@);
                assert(tab[j as int][g as int] == bucket@);
                assert(tab[j as int][t as int] == target@);
            }
            match position_of(&keys, &bucket) {
                Some(i) => {
                    proof {
                        lemma_last_position_bounds(texts(old_keys), bucket@);
                        assert(texts(old_keys)[i as int] == bucket@);
                        assert(prev[i as int].0 == bucket@);
                    }
                    found.set(i, BarcaTarget { barca: bucket, target_percent: target });
                    proof {
                        assert(target_pairs(found@) =~= prev.update(
                            i as int,
                            (tab[j as int][g as int], tab[j as int][t as int]),
                        ));
                        assert(pair_keys(target_pairs(found@)) =~= pair_keys(prev));
                    }
                },
                None => {
                    let k = bucket.clone();
                    found.push(BarcaTarget { barca: bucket, target_percent: target });
                    keys.push(k);
                    proof {
                        assert(target_pairs(found@) =~= prev.push(
                            (tab[j as int][g as int], tab[j as int][t as int]),
                        ));
                        assert(keys@ == old_keys.push(k));
                        assert(texts(keys@) =~= texts(old_keys).push(k@));
                        assert(texts(keys@) =~= pair_keys(target_pairs(found@)));
                    }
                },
            }
        }
        j = j + 1;
    }
    proof {
        assert(tab.subrange(1, tab.len() as int) =~= tab.drop_first());
    }
    if found.len() == 0 {
        return Err(StoreError::NoTargetsForMarket(market));
    }
    Ok(found)
}

proof fn lemma_first_short_exists(tab: Seq<Seq<Seq<char>>>, need: int, c: int)
    requires
        1 <= c < tab.len(),
        tab[c].len() <= need,
    ensures
        first_short(tab, need) is Some,
    decreases c,
{
    if exists|i: int| 1 <= i < c && tab[i].len() <= need {
        let i = choose|i: int| 1 <= i < c && tab[i].len() <= need;
        lemma_first_short_exists(tab, need, i);
    } else {
        assert(1 <= c < tab.len() && tab[c].len() <= need && forall|i: int|
            1 <= i < c ==> tab[i].len() > need);
    }
}

/// The amounts of a ledger row as they stand in the import file, unparsed.
pub struct RawFigures {
    pub target_percent: Option<String>,
    pub current_quantity: Option<String>,
    pub last_price: Option<String>,
}

/// An optional string as an optional text.
pub open spec fn opt_view(o: Option<String>) -> Option<Seq<char>> {
    match o {
        Some(s) => Some(s@),
        None => None,
    }
}

/// The field of `row` in column `c`; absent where the column or the field is
/// missing or the field is empty.
pub open spec fn cell(row: Seq<Seq<char>>, c: Option<int>) -> Option<Seq<char>> {
    match c {
        Some(i) => if 0 <= i < row.len() && row[i].len() > 0 {
            Some(row[i])
        } else {
            None
        },
        None => None,
    }
}

/// The notes column: `notes`, or else `comments`.
pub open spec fn notes_column(header: Seq<Seq<char>>) -> Option<int> {
    match last_position(header, "notes"@) {
        Some(i) => Some(i),
        None => last_position(header, "comments"@),
    }
}

/// `w` is the ledger row that data record `row` describes under `header`.
pub open spec fn ledger_row_from(
    header: Seq<Seq<char>>,
    row: Seq<Seq<char>>,
    w: WalletAllocation<RawFigures>,
) -> bool {
    &&& w.symbol@ == row[last_position(header, "symbol"@)->0]
    &&& opt_view(w.group_name) == cell(row, last_position(header, "group"@))
    &&& opt_view(w.barca) == cell(row, last_position(header, "barca"@))
    &&& opt_view(w.figures.target_percent) == cell(row, last_position(header, "target_percent"@))
    &&& opt_view(w.figures.current_quantity) == cell(
        row,
        last_position(header, "current_quantity"@),
    )
    &&& opt_view(w.figures.last_price) == cell(row, last_position(header, "last_price"@))
    &&& opt_view(w.notes) == cell(row, notes_column(header))
}

/// What reading the ledger import table `tab` gives.
pub open spec fn ledger_outcome(
    tab: Seq<Seq<Seq<char>>>,
    r: Result<Vec<WalletAllocation<RawFigures>>, StoreError>,
) -> bool {
    if tab.len() == 0 {
        r matches Ok(v) && v@.len() == 0
    } else {
        match last_position(tab[0], "symbol"@) {
            None => r matches Err(StoreError::MissingColumn(c)) && c@ == "symbol"@,
            Some(s) => match first_short(tab, s) {
                Some(j) => r matches Err(StoreError::ShortRow(x)) && x as int == j,
                None => r matches Ok(v) && v@.len() == tab.len() - 1 && forall|i: int|
                    0 <= i < v@.len() ==> ledger_row_from(tab[0], tab[i + 1], #[trigger] v@[i]),
            },
        }
    }
}

fn cell_of(row: &Vec<String>, c: Option<usize>) -> (r: Option<String>)
    ensures
        opt_view(r) == cell(
            texts(row@),
            match c {
                Some(i) => Some(i as int),
                None => None,
            },
        ),
{
    match c {
        Some(i) => {
            if i < row.len() && !row[i].as_str().is_empty() {
                Some(row[i].clone())
            } else {
                None
            }
        },
        None => None,
    }
}

/// Column position as an optional `int`.
pub open spec fn col_view(c: Option<usize>) -> Option<int> {
    match c {
        Some(i) => Some(i as int),
        None => None,
    }
}

impl FileCsvStore {
    /// Reads a ledger import file: `symbol` is required, `group`, `barca`,
    /// `target_percent`, `current_quantity`, `last_price` and `notes` (or
    /// `comments`) are optional; the amounts are left as text. Records may
    /// have fewer fields than the header.
    pub fn read_wallet_allocations(&self, content: &[u8]) -> (r: Result<
        Vec<WalletAllocation<RawFigures>>,
        StoreError,
    >)
        ensures
            match csv_table(content@, true) {
                None => r matches Err(StoreError::Csv(_)),
                Some(tab) => ledger_outcome(tab, r),
            },
    {
        match csv_records(content, true) {
            Ok(rows) => ledger_rows_from_records(&rows),
            Err(e) => Err(StoreError::Csv(e)),
        }
    }
}

/// The ledger rows in the records of a ledger import table (the first
/// record is the header); see `FileCsvStore::read_wallet_allocations`.
pub fn ledger_rows_from_records(rows: &Vec<Vec<String>>) -> (r: Result<
    Vec<WalletAllocation<RawFigures>>,
    StoreError,
>)
    ensures
        ledger_outcome(table_view(rows@), r),
{
    let ghost tab = table_view(rows@);
    if rows.len() == 0 {
        return Ok(Vec::new());
    }
    let header = &rows[0];
    proof {
        assert(tab[0] == texts(header@));
    }
    let s = match column(header, "symbol") {
        Some(c) => c,
        None => {
            return Err(StoreError::MissingColumn("symbol".to_owned()));
        },
    };
    if let Some(j) = find_short(&rows, s) {
        return Err(StoreError::ShortRow(j));
    }
    proof {
        assert forall|j: int| 1 <= j < tab.len() implies tab[j].len() > s by {
            if tab[j].len() <= s {
                lemma_first_short_exists(tab, s as int, j);
            }
        }
    }
    let g = column(header, "group");
    let b = column(header, "barca");
    let t = column(header, "target_percent");
    let q = column(header, "current_quantity");
    let p = column(header, "last_price");
    let n = match column(header, "notes") {
        Some(c) => Some(c),
        None => column(header, "comments"),
    };
    let ghost h = tab[0];
    proof {
        assert(col_view(g) == last_position(h, "group"@));
        assert(col_view(b) == last_position(h, "barca"@));
        assert(col_view(t) == last_position(h, "target_percent"@));
        assert(col_view(q) == last_position(h, "current_quantity"@));
        assert(col_view(p) == last_position(h, "last_price"@));
        assert(col_view(n) == notes_column(h));
    }
    let mut out: Vec<WalletAllocation<RawFigures>> = Vec::new();
    let mut j: usize = 1;
    while j < rows.len()
        invariant
            tab == table_view(rows@),
            h == tab[0],
            1 <= j <= rows@.len(),
            out@.len() == j - 1,
            last_position(h, "symbol"@) == Some(s as int),
            col_view(g) == last_position(h, "group"@),
            col_view(b) == last_position(h, "barca"@),
            col_view(t) == last_position(h, "target_percent"@),
            col_view(q) == last_position(h, "current_quantity"@),
            col_view(p) == last_position(h, "last_price"@),
            col_view(n) == notes_column(h),
            forall|x: int| 1 <= x < tab.len() ==> tab[x].len() > s,
            forall|i: int| 0 <= i < out@.len() ==> ledger_row_from(h, tab[i + 1], #[trigger] out@[i]),
        decreases rows.len() - j,
    {
        let row = &rows[j];
        proof {
            assert(tab[j as int] == texts(row@));
            assert(tab[j as int].len() > s);
        }
        let w = WalletAllocation {
            symbol: row[s].clone(),
            group_name: cell_of(row, g),
            barca: cell_of(row, b),
            notes: cell_of(row, n),
            figures: RawFigures {
                target_percent: cell_of(row, t),
                current_quantity: cell_of(row, q),
                last_price: cell_of(row, p),
            },
        };
        out.push(w);
        j = j + 1;
    }
    Ok(out)
}

/// The keys of `market_targets` are pairwise distinct: the target table of
/// a market maps each bucket to one target.
pub proof fn lemma_market_targets_distinct(
    rows: Seq<Seq<Seq<char>>>,
    m: int,
    g: int,
    t: int,
    market: Seq<char>,
)
    ensures
        names_distinct(pair_keys(market_targets(rows, m, g, t, market))),
    decreases rows.len(),
{
    if rows.len() > 0 {
        let prev = market_targets(rows.drop_last(), m, g, t, market);
        lemma_market_targets_distinct(rows.drop_last(), m, g, t, market);
        let r = rows.last();
        if r[m] == market {
            let k = r[g];
            lemma_last_position_bounds(pair_keys(prev), k);
            let next = upsert(prev, k, r[t]);
            match last_position(pair_keys(prev), k) {
                Some(i) => {
                    assert(pair_keys(next) =~= pair_keys(prev));
                },
                None => {
                    assert(pair_keys(next) =~= pair_keys(prev).push(k));
                },
            }
        }
    }
}

} // verus!
