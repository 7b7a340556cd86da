//! Snapshot history: tables of records keyed by timestamp and dimension key,
//! written once per computation and read back by time range.
//!
//! Timestamps are RFC 3339 texts, compared as text.

use vstd::prelude::*;
use crate::text::{
    compare_text, lemma_text_cmp_facts, lemma_text_cmp_transitive, lemma_text_cmp_zero, text_cmp,
};

verus! {

/// Which history table a query reads.
#[derive(PartialEq, Eq, Structural, Clone, Copy, Debug)]
pub enum HistoryLevel {
    Assets,
    Groups,
    Barca,
    Totals,
}

impl HistoryLevel {
    /// The level a query names: `assets`, `groups` or `barca`; anything else
    /// reads the totals.
    pub fn from_name(name: &str) -> (r: HistoryLevel)
        ensures
            name@ == "assets"@ ==> r == HistoryLevel::Assets,
            name@ == "groups"@ ==> r == HistoryLevel::Groups,
            name@ == "barca"@ ==> r == HistoryLevel::Barca,
            name@ != "assets"@ && name@ != "groups"@ && name@ != "barca"@ ==> r
                == HistoryLevel::Totals,
    {
        proof {
            reveal_strlit("assets");
            reveal_strlit("groups");
            reveal_strlit("barca");
            assert("groups"@[0] != "assets"@[0]);
            assert("barca"@[0] != "assets"@[0]);
            assert("barca"@[0] != "groups"@[0]);
        }
        let n = name.to_owned();
        if n == "assets".to_owned() {
            HistoryLevel::Assets
        } else if n == "groups".to_owned() {
            HistoryLevel::Groups
        } else if n == "barca".to_owned() {
            HistoryLevel::Barca
        } else {
            HistoryLevel::Totals
        }
    }
}

/// One history record: a timestamp, the dimension key (symbol, group name or
/// bucket name; empty for totals) and the recorded figures.
pub struct Snapshot<T> {
    pub timestamp: String,
    pub key: String,
    pub data: T,
}

/// Two records claim the same `(timestamp, key)` place.
pub open spec fn same_place<T>(a: Snapshot<T>, b: Snapshot<T>) -> bool {
    a.timestamp@ == b.timestamp@ && a.key@ == b.key@
}

/// No two records share a place.
pub open spec fn places_unique<T>(rows: Seq<Snapshot<T>>) -> bool {
    forall|i: int, j: int| 0 <= i < j < rows.len() ==> !same_place(rows[i], rows[j])
}

/// Record order: by timestamp, then by key.
pub open spec fn record_cmp<T>(a: Snapshot<T>, b: Snapshot<T>) -> int {
    let c = text_cmp(a.timestamp@, b.timestamp@);
    if c != 0 {
        c
    } else {
        text_cmp(a.key@, b.key@)
    }
}

pub proof fn lemma_record_cmp_antisymmetric<T>(a: Snapshot<T>, b: Snapshot<T>)
    ensures
        record_cmp(a, b) == -record_cmp(b, a),
{
    lemma_text_cmp_facts(a.timestamp@, b.timestamp@);
    lemma_text_cmp_facts(a.key@, b.key@);
}

pub proof fn lemma_record_cmp_transitive<T>(a: Snapshot<T>, b: Snapshot<T>, c: Snapshot<T>)
    requires
        record_cmp(a, b) <= 0,
        record_cmp(b, c) <= 0,
    ensures
        record_cmp(a, c) <= 0,
{
    let (ta, tb, tc) = (a.timestamp@, b.timestamp@, c.timestamp@);
    lemma_text_cmp_facts(ta, tb);
    lemma_text_cmp_facts(tb, tc);
    lemma_text_cmp_facts(ta, tc);
    lemma_text_cmp_transitive(ta, tb, tc);
    if text_cmp(ta, tc) == 0 {
        lemma_text_cmp_zero(ta, tc, tb);
        lemma_text_cmp_transitive(a.key@, b.key@, c.key@);
    } else if text_cmp(ta, tb) == 0 {
        lemma_text_cmp_zero(ta, tb, tc);
    }
}

/// Optional text bound as a view.
pub open spec fn bound_view(o: Option<&str>) -> Option<Seq<char>> {
    match o {
        Some(s) => Some(s@),
        None => None,
    }
}

/// A timestamp lies within the inclusive bounds that are present.
pub open spec fn in_window(ts: Seq<char>, from: Option<Seq<char>>, to: Option<Seq<char>>) -> bool {
    &&& (from matches Some(f) ==> text_cmp(f, ts) <= 0)
    &&& (to matches Some(t) ==> text_cmp(ts, t) <= 0)
}

/// Position `p` is listed in `out`.
pub open spec fn listed(out: Seq<usize>, p: int) -> bool {
    exists|i: int| 0 <= i < out.len() && out[i] as int == p
}

/// `out` lists, once each and in record order, exactly the positions of the
/// records of `rows` whose timestamp lies within the bounds.
pub open spec fn window_listing<T>(
    rows: Seq<Snapshot<T>>,
    from: Option<Seq<char>>,
    to: Option<Seq<char>>,
    out: Seq<usize>,
) -> bool {
    &&& forall|i: int|
        0 <= i < out.len() ==> (#[trigger] out[i] as int) < rows.len() && in_window(
            rows[out[i] as int].timestamp@,
            from,
            to,
        )
    &&& forall|p: int|
        0 <= p < rows.len() && in_window(rows[p].timestamp@, from, to) ==> #[trigger] listed(out, p)
    &&& forall|i: int, j: int| 0 <= i < j < out.len() ==> out[i] != out[j]
    &&& forall|i: int, j: int|
        0 <= i < j < out.len() ==> record_cmp(rows[out[i] as int], rows[out[j] as int]) <= 0
}

/// Inserting into a table that ignores a record whose place is taken.
pub open spec fn insert_ignoring<T>(rows: Seq<Snapshot<T>>, s: Snapshot<T>) -> Seq<Snapshot<T>> {
    if exists|i: int| 0 <= i < rows.len() && same_place(rows[i], s) {
        rows
    } else {
        rows.push(s)
    }
}

/// Inserting into a table that replaces the record whose place is taken.
pub open spec fn insert_replacing<T>(rows: Seq<Snapshot<T>>, s: Snapshot<T>) -> Seq<Snapshot<T>> {
    if exists|i: int| 0 <= i < rows.len() && same_place(rows[i], s) {
        let i = choose|i: int| 0 <= i < rows.len() && same_place(rows[i], s);
        rows.update(i, s)
    } else {
        rows.push(s)
    }
}

/// An append-only table of snapshots, at most one per `(timestamp, key)`.
pub struct HistoryTable<T> {
    rows: Vec<Snapshot<T>>,
}

impl<T> View for HistoryTable<T> {
    type V = Seq<Snapshot<T>>;

    closed spec fn view(&self) -> Seq<Snapshot<T>> {
        self.rows@
    }
}

fn record_compare<T>(a: &Snapshot<T>, b: &Snapshot<T>) -> (r: i8)
    ensures
        r as int == record_cmp(*a, *b),
{
    let c = compare_text(a.timestamp.as_str(), b.timestamp.as_str());
    if c != 0 {
        c
    } else {
        compare_text(a.key.as_str(), b.key.as_str())
    }
}

fn within(ts: &String, from: Option<&str>, to: Option<&str>) -> (r: bool)
    ensures
        r == in_window(ts@, bound_view(from), bound_view(to)),
{
    let after_from = match from {
        Some(f) => compare_text(f, ts.as_str()) <= 0,
        None => true,
    };
    let before_to = match to {
        Some(t) => compare_text(ts.as_str(), t) <= 0,
        None => true,
    };
    after_from && before_to
}

impl<T> HistoryTable<T> {
    pub open spec fn wf(&self) -> bool {
        places_unique(self@)
    }

    pub fn new() -> (r: Self)
        ensures
            r@ == Seq::<Snapshot<T>>::empty(),
            r.wf(),
    {
        HistoryTable { rows: Vec::new() }
    }

    pub fn len(&self) -> (r: usize)
        ensures
            r == self@.len(),
    {
        self.rows.len()
    }

    pub fn get(&self, i: usize) -> (r: &Snapshot<T>)
        requires
            i < self@.len(),
        ensures
            *r == self@[i as int],
    {
        &self.rows[i]
    }

    fn find(&self, timestamp: &String, key: &String) -> (r: Option<usize>)
        ensures
            match r {
                Some(i) => i < self@.len() && self@[i as int].timestamp@ == timestamp@
                    && self@[i as int].key@ == key@,
                None => forall|i: int|
                    0 <= i < self@.len() ==> !(self@[i].timestamp@ == timestamp@ && self@[i].key@
                        == key@),
            },
    {
        let mut i: usize = 0;
        while i < self.rows.len()
            invariant
                i <= self@.len(),
                forall|j: int|
                    0 <= j < i ==> !(self@[j].timestamp@ == timestamp@ && self@[j].key@ == key@),
            decreases self.rows.len() - i,
        {
            if self.rows[i].timestamp == *timestamp && self.rows[i].key == *key {
                return Some(i);
            }
            i = i + 1;
        }
        None
    }

    /// Records `s` unless its place is taken, in which case nothing changes.
    pub fn insert_or_ignore(&mut self, s: Snapshot<T>) -> (inserted: bool)
        requires
            old(self).wf(),
        ensures
            final(self).wf(),
            final(self)@ == insert_ignoring(old(self)@, s),
            inserted == (final(self)@.len() > old(self)@.len()),
    {
        match self.find(&s.timestamp, &s.key) {
            Some(i) => {
                proof {
                    assert(same_place(self@[i as int], s));
                }
                false
            },
            None => {
                self.rows.push(s);
                proof {
                    assert(!(exists|i: int| 0 <= i < old(self)@.len() && same_place(old(self)@[i], s)));
                }
                true
            },
        }
    }

    /// Records `s`, replacing the record whose place it takes.
    pub fn insert_or_replace(&mut self, s: Snapshot<T>)
        requires
            old(self).wf(),
        ensures
            final(self).wf(),
            final(self)@ == insert_replacing(old(self)@, s),
    {
        match self.find(&s.timestamp, &s.key) {
            Some(i) => {
                proof {
                    assert(same_place(self@[i as int], s));
                    let c = choose|c: int| 0 <= c < self@.len() && same_place(self@[c], s);
                    if c != i {
                        if c < i {
                            assert(!same_place(self@[c], self@[i as int]));
                        } else {
                            assert(!same_place(self@[i as int], self@[c]));
                        }
                    }
                }
                let ghost prev = self@;
                self.rows.set(i, s);
                proof {
                    assert forall|a: int, b: int| 0 <= a < b < self@.len() implies !same_place(
                        self@[a],
                        self@[b],
                    ) by {
                        if a == i {
                            assert(!same_place(prev[a], prev[b]));
                        } else if b == i {
                            assert(!same_place(prev[a], prev[b]));
                        }
                    }
                }
            },
            None => {
                self.rows.push(s);
                proof {
                    assert(!(exists|i: int| 0 <= i < old(self)@.len() && same_place(old(self)@[i], s)));
                }
            },
        }
    }

    /// Positions of the records within the inclusive bounds, ordered by
    /// timestamp and then by key.
    pub fn fetch(&self, from: Option<&str>, to: Option<&str>) -> (out: Vec<usize>)
        ensures
            window_listing(self@, bound_view(from), bound_view(to), out@),
    {
        let ghost rows = self@;
        let ghost lo = bound_view(from);
        let ghost hi = bound_view(to);
        let mut out: Vec<usize> = Vec::new();
        let mut p: usize = 0;
        while p < self.rows.len()
            invariant
                rows == self@,
                lo == bound_view(from),
                hi == bound_view(to),
                p <= rows.len(),
                forall|i: int|
                    0 <= i < out@.len() ==> (#[trigger] out@[i] as int) < p && in_window(
                        rows[out@[i] as int].timestamp@,
                        lo,
                        hi,
                    ),
                forall|x: int| 0 <= x < p && in_window(rows[x].timestamp@, lo, hi) ==> #[trigger] listed(out@, x),
                forall|i: int, j: int| 0 <= i < j < out@.len() ==> out@[i] != out@[j],
                forall|i: int, j: int|
                    0 <= i < j < out@.len() ==> record_cmp(rows[out@[i] as int], rows[out@[j] as int])
                        <= 0,
            decreases self.rows.len() - p,
        {
            if within(&self.rows[p].timestamp, from, to) {
                let mut q: usize = 0;
                while q < out.len() && record_compare(&self.rows[p], &self.rows[out[q]]) >= 0
                    invariant
                        rows == self@,
                        p < rows.len(),
                        q <= out@.len(),
                        forall|i: int| 0 <= i < out@.len() ==> (#[trigger] out@[i] as int) < p,
                        forall|k: int|
                            0 <= k < q ==> record_cmp(rows[p as int], rows[out@[k] as int]) >= 0,
                    decreases out.len() - q,
                {
                    q = q + 1;
                }
                let ghost before = out@;
                out.insert(q, p);
                proof {
                    assert(out@ == before.insert(q as int, p));
                    assert forall|i: int, j: int|
                        0 <= i < j < out@.len() implies record_cmp(
                        rows[out@[i] as int],
                        rows[out@[j] as int],
                    ) <= 0 by {
                        let a = rows[out@[i] as int];
                        let b = rows[out@[j] as int];
                        let s = rows[p as int];
                        if j < q {
                            assert(out@[i] == before[i] && out@[j] == before[j]);
                        } else if j == q {
                            assert(out@[i] == before[i]);
                            lemma_record_cmp_antisymmetric(s, a);
                        } else if i < q {
                            assert(out@[i] == before[i] && out@[j] == before[j - 1]);
                        } else if i == q {
                            assert(out@[j] == before[j - 1]);
                            assert(record_cmp(s, rows[before[q as int] as int]) < 0);
                            if j - 1 > q {
                                lemma_record_cmp_transitive(s, rows[before[q as int] as int], b);
                            }
                        } else {
                            assert(out@[i] == before[i - 1] && out@[j] == before[j - 1]);
                        }
                    }
                    assert forall|x: int|
                        0 <= x < p + 1 && in_window(rows[x].timestamp@, lo, hi) implies #[trigger] listed(
                        out@,
                        x,
                    ) by {
                        if x == p {
                            assert(out@[q as int] as int == x);
                        } else {
                            assert(listed(before, x));
                            let i = choose|i: int| 0 <= i < before.len() && before[i] as int == x;
                            if i < q {
                                assert(out@[i] == before[i]);
                            } else {
                                assert(out@[i + 1] == before[i]);
                            }
                        }
                    }
                }
            }
            p = p + 1;
        }
        out
    }
}

/// The record of one report row at a timestamp.
pub open spec fn record_of<T>(timestamp: String, row: (String, T)) -> Snapshot<T> {
    Snapshot { timestamp: timestamp, key: row.0, data: row.1 }
}

/// A table after recording a batch of report rows at one timestamp, each
/// ignored where its place is taken.
pub open spec fn ignore_batch<T>(rows: Seq<Snapshot<T>>, timestamp: String, batch: Seq<(String, T)>) -> Seq<
    Snapshot<T>,
>
    decreases batch.len(),
{
    if batch.len() == 0 {
        rows
    } else {
        insert_ignoring(ignore_batch(rows, timestamp, batch.drop_last()), record_of(timestamp, batch.last()))
    }
}

/// The totals record of a computation: no dimension key.
pub open spec fn total_record<T>(s: Snapshot<T>, timestamp: Seq<char>, total: T) -> bool {
    s.timestamp@ == timestamp && s.key@ == Seq::<char>::empty() && s.data == total
}

/// Records a batch of report rows, in order, each ignored where its place is
/// taken; a failed row never stops the others.
fn persist_batch<T>(table: &mut HistoryTable<T>, timestamp: &String, batch: Vec<(String, T)>)
    requires
        old(table).wf(),
    ensures
        final(table).wf(),
        final(table)@ == ignore_batch(old(table)@, *timestamp, batch@),
{
    let ghost all = batch@;
    let ghost start = table@;
    let mut rest = batch;
    let n: usize = rest.len();
    let mut i: usize = 0;
    proof {
        assert(all.subrange(0, 0) =~= Seq::<(String, T)>::empty());
        assert(rest@ =~= all.subrange(0, all.len() as int));
    }
    while rest.len() > 0
        invariant
            table.wf(),
            n == all.len(),
            i <= all.len(),
            rest@ == all.subrange(i as int, all.len() as int),
            table@ == ignore_batch(start, *timestamp, all.subrange(0, i as int)),
        decreases rest.len(),
    {
        let (key, data) = rest.remove(0);
        let s = Snapshot { timestamp: timestamp.clone(), key, data };
        table.insert_or_ignore(s);
        proof {
            assert(all.subrange(0, i + 1).drop_last() =~= all.subrange(0, i as int));
            assert(all.subrange(0, i + 1).last() == all[i as int]);
        }
        i = i + 1;
        proof {
            assert(rest@ =~= all.subrange(i as int, all.len() as int));
        }
    }
    proof {
        assert(all.subrange(0, i as int) =~= all);
    }
}

/// The four history tables: per asset, per group, per bucket and totals.
pub struct HistoryStore<A, G, B, T> {
    pub assets: HistoryTable<A>,
    pub groups: HistoryTable<G>,
    pub barca: HistoryTable<B>,
    pub totals: HistoryTable<T>,
}

impl<A, G, B, T> HistoryStore<A, G, B, T> {
    pub open spec fn wf(&self) -> bool {
        self.assets.wf() && self.groups.wf() && self.barca.wf() && self.totals.wf()
    }

    pub fn new() -> (r: Self)
        ensures
            r.wf(),
            r.assets@.len() == 0,
            r.groups@.len() == 0,
            r.barca@.len() == 0,
            r.totals@.len() == 0,
    {
        HistoryStore {
            assets: HistoryTable::new(),
            groups: HistoryTable::new(),
            barca: HistoryTable::new(),
            totals: HistoryTable::new(),
        }
    }

    /// Records one computation at `timestamp`: each report row in its table,
    /// ignored where its `(timestamp, key)` place is taken, and the total,
    /// replacing any total recorded at that timestamp.
    pub fn persist_snapshots(
        &mut self,
        timestamp: &String,
        per_asset: Vec<(String, A)>,
        per_group: Vec<(String, G)>,
        per_barca: Vec<(String, B)>,
        total: T,
    )
        requires
            old(self).wf(),
        ensures
            final(self).wf(),
            final(self).assets@ == ignore_batch(old(self).assets@, *timestamp, per_asset@),
            final(self).groups@ == ignore_batch(old(self).groups@, *timestamp, per_group@),
            final(self).barca@ == ignore_batch(old(self).barca@, *timestamp, per_barca@),
            exists|s: Snapshot<T>|
                total_record(s, timestamp@, total) && final(self).totals@ == insert_replacing(
                    old(self).totals@,
                    s,
                ),
    {
        persist_batch(&mut self.assets, timestamp, per_asset);
        persist_batch(&mut self.groups, timestamp, per_group);
        persist_batch(&mut self.barca, timestamp, per_barca);
        let s = Snapshot { timestamp: timestamp.clone(), key: String::new(), data: total };
        let ghost sg = s;
        self.totals.insert_or_replace(s);
        proof {
            assert(total_record(sg, timestamp@, total));
        }
    }
}

impl<A, G, B, T> HistoryStore<A, G, B, T> {
    /// Positions, in the table of `level`, of the records within the
    /// inclusive bounds, ordered by timestamp and then by key.
    pub fn fetch_history(&self, level: HistoryLevel, from: Option<&str>, to: Option<&str>) -> (out:
        Vec<usize>)
        ensures
            level == HistoryLevel::Assets ==> window_listing(self.assets@, bound_view(from), bound_view(to), out@),
            level == HistoryLevel::Groups ==> window_listing(self.groups@, bound_view(from), bound_view(to), out@),
            level == HistoryLevel::Barca ==> window_listing(self.barca@, bound_view(from), bound_view(to), out@),
            level == HistoryLevel::Totals ==> window_listing(self.totals@, bound_view(from), bound_view(to), out@),
    {
        match level {
            HistoryLevel::Assets => self.assets.fetch(from, to),
            HistoryLevel::Groups => self.groups.fetch(from, to),
            HistoryLevel::Barca => self.barca.fetch(from, to),
            HistoryLevel::Totals => self.totals.fetch(from, to),
        }
    }
}

/// Audit record of one computed report.
pub struct AllocationRecord<T> {
    pub computed_at: String,
    pub payload: T,
}

/// The audit log of computed reports: records are appended, never changed.
pub struct AllocationLog<T> {
    records: Vec<AllocationRecord<T>>,
}

impl<T> View for AllocationLog<T> {
    type V = Seq<AllocationRecord<T>>;

    closed spec fn view(&self) -> Seq<AllocationRecord<T>> {
        self.records@
    }
}

impl<T> AllocationLog<T> {
    pub fn new() -> (r: Self)
        ensures
            r@ == Seq::<AllocationRecord<T>>::empty(),
    {
        AllocationLog { records: Vec::new() }
    }

    pub fn len(&self) -> (r: usize)
        ensures
            r == self@.len(),
    {
        self.records.len()
    }

    pub fn get(&self, i: usize) -> (r: &AllocationRecord<T>)
        requires
            i < self@.len(),
        ensures
            *r == self@[i as int],
    {
        &self.records[i]
    }

    /// Appends the record of a computed report.
    pub fn persist_allocation_record(&mut self, rec: AllocationRecord<T>)
        ensures
            final(self)@ == old(self)@.push(rec),
    {
        self.records.push(rec);
    }
}

proof fn lemma_insert_ignoring_keeps<T>(rows: Seq<Snapshot<T>>, s: Snapshot<T>)
    ensures
        insert_ignoring(rows, s).len() >= rows.len(),
        forall|i: int| 0 <= i < rows.len() ==> insert_ignoring(rows, s)[i] == rows[i],
        exists|i: int|
            0 <= i < insert_ignoring(rows, s).len() && same_place(insert_ignoring(rows, s)[i], s),
{
    if !(exists|i: int| 0 <= i < rows.len() && same_place(rows[i], s)) {
        assert(same_place(rows.push(s)[rows.len() as int], s));
        assert(same_place(insert_ignoring(rows, s)[rows.len() as int], s));
    } else {
        let i = choose|i: int| 0 <= i < rows.len() && same_place(rows[i], s);
        assert(same_place(insert_ignoring(rows, s)[i], s));
    }
}

/// The place of batch row `k` is taken in `rows`.
pub open spec fn has_place<T>(rows: Seq<Snapshot<T>>, timestamp: String, batch: Seq<(String, T)>, k: int) -> bool {
    exists|i: int| 0 <= i < rows.len() && same_place(rows[i], record_of(timestamp, batch[k]))
}

proof fn lemma_ignore_batch_places<T>(rows: Seq<Snapshot<T>>, timestamp: String, batch: Seq<(String, T)>)
    ensures
        ignore_batch(rows, timestamp, batch).len() >= rows.len(),
        forall|i: int| 0 <= i < rows.len() ==> ignore_batch(rows, timestamp, batch)[i] == rows[i],
        forall|k: int|
            0 <= k < batch.len() ==> #[trigger] has_place(ignore_batch(rows, timestamp, batch), timestamp, batch, k),
    decreases batch.len(),
{
    if batch.len() > 0 {
        let prev = ignore_batch(rows, timestamp, batch.drop_last());
        let s = record_of(timestamp, batch.last());
        lemma_ignore_batch_places(rows, timestamp, batch.drop_last());
        lemma_insert_ignoring_keeps(prev, s);
        let r = ignore_batch(rows, timestamp, batch);
        assert forall|k: int| 0 <= k < batch.len() implies #[trigger] has_place(r, timestamp, batch, k) by {
            if k < batch.len() - 1 {
                assert(has_place(prev, timestamp, batch.drop_last(), k));
                let i = choose|i: int|
                    0 <= i < prev.len() && same_place(prev[i], record_of(timestamp, batch.drop_last()[k]));
                assert(r[i] == prev[i]);
            }
        }
    }
}

proof fn lemma_ignore_batch_present<T>(rows: Seq<Snapshot<T>>, timestamp: String, batch: Seq<(String, T)>)
    requires
        forall|k: int| 0 <= k < batch.len() ==> #[trigger] has_place(rows, timestamp, batch, k),
    ensures
        ignore_batch(rows, timestamp, batch) == rows,
    decreases batch.len(),
{
    if batch.len() > 0 {
        let b = batch.drop_last();
        assert forall|k: int| 0 <= k < b.len() implies #[trigger] has_place(rows, timestamp, b, k) by {
            assert(has_place(rows, timestamp, batch, k));
            assert(b[k] == batch[k]);
        }
        lemma_ignore_batch_present(rows, timestamp, b);
        assert(has_place(rows, timestamp, batch, batch.len() - 1));
    }
}

/// Persisting the same report rows twice at one timestamp changes nothing the
/// second time: each `(timestamp, key)` place keeps the one record it got the
/// first time.
pub proof fn lemma_persist_twice_ignored<T>(rows: Seq<Snapshot<T>>, timestamp: String, batch: Seq<(String, T)>)
    ensures
        ignore_batch(ignore_batch(rows, timestamp, batch), timestamp, batch) == ignore_batch(
            rows,
            timestamp,
            batch,
        ),
        forall|k: int|
            0 <= k < batch.len() ==> #[trigger] has_place(ignore_batch(rows, timestamp, batch), timestamp, batch, k),
{
    lemma_ignore_batch_places(rows, timestamp, batch);
    lemma_ignore_batch_present(ignore_batch(rows, timestamp, batch), timestamp, batch);
}

/// Recording two totals at one timestamp leaves one record there, holding the
/// later total, and the table no longer than after the first.
pub proof fn lemma_totals_keep_latest<T>(rows: Seq<Snapshot<T>>, first: Snapshot<T>, second: Snapshot<T>)
    requires
        places_unique(rows),
        same_place(first, second),
    ensures
        insert_replacing(insert_replacing(rows, first), second).len() == insert_replacing(rows, first).len(),
        forall|i: int|
            0 <= i < insert_replacing(insert_replacing(rows, first), second).len() && same_place(
                #[trigger] insert_replacing(insert_replacing(rows, first), second)[i],
                second,
            ) ==> insert_replacing(insert_replacing(rows, first), second)[i] == second,
        exists|i: int|
            0 <= i < insert_replacing(insert_replacing(rows, first), second).len()
                && insert_replacing(insert_replacing(rows, first), second)[i] == second,
{
    let once = insert_replacing(rows, first);
    let twice = insert_replacing(once, second);
    let w = if exists|i: int| 0 <= i < rows.len() && same_place(rows[i], first) {
        choose|i: int| 0 <= i < rows.len() && same_place(rows[i], first)
    } else {
        rows.len() as int
    };
    assert(once[w] == first);
    assert(same_place(once[w], second));
    let c = choose|i: int| 0 <= i < once.len() && same_place(once[i], second);
    assert forall|i: int| 0 <= i < once.len() && i != w implies !same_place(once[i], second) by {
        assert(once[i] == rows[i]);
        if i < w {
            assert(!same_place(rows[i], rows[w]) || w == rows.len());
        } else {
            assert(!same_place(rows[w], rows[i]));
        }
    }
    assert(c == w);
    assert(twice == once.update(w, second));
    assert forall|i: int| 0 <= i < twice.len() && same_place(#[trigger] twice[i], second) implies twice[i]
        == second by {
        if i != w {
            assert(twice[i] == once[i]);
        }
    }
    assert(twice[w] == second);
}

} // verus!
