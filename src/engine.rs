//! The aggregation engine: joins ledger rows to listings and groups them per
//! asset, per group and per bucket, and reconciles buckets with their targets.
//!
//! Each report row comes back as the list of the inputs that feed it, so that
//! the caller sums its own figures over exactly those inputs.

use vstd::prelude::*;
use crate::ledger::WalletAllocation;
use crate::quotes::{build_index, symbols_of, CryptoData, PriceIndex};
use crate::text::{last_position, lemma_last_position_bounds, position_of, texts};

verus! {

/// `o` holds the position `i`.
pub open spec fn is_pos(o: Option<usize>, i: int) -> bool {
    o is Some && o->0 as int == i
}

/// Some position of `rows` holds `r`.
pub open spec fn holds_row(rows: Seq<usize>, r: int) -> bool {
    exists|j: int| 0 <= j < rows.len() && rows[j] as int == r
}

/// The text of an optional tag, empty when absent.
pub open spec fn text_or_empty(o: Option<String>) -> Seq<char> {
    match o {
        Some(s) => s@,
        None => Seq::empty(),
    }
}

/// The `(symbol, group, bucket)` key of a ledger row.
pub open spec fn asset_key<N>(e: WalletAllocation<N>) -> (Seq<char>, Seq<char>, Seq<char>) {
    (e.symbol@, text_or_empty(e.group_name), text_or_empty(e.barca))
}

/// Whether a listing exists for the symbol of ledger row `r`.
pub open spec fn is_priced<N>(ledger: Seq<WalletAllocation<N>>, prices: Seq<Seq<char>>, r: int) -> bool {
    last_position(prices, ledger[r].symbol@) is Some
}

/// The ledger rows that share one `(symbol, group, bucket)` key.
pub struct AssetSlot {
    pub symbol: String,
    pub group: String,
    pub barca: String,
    /// Position of the symbol's latest listing.
    pub quote: usize,
    /// Positions of the contributing ledger rows, ascending.
    pub rows: Vec<usize>,
}

impl AssetSlot {
    pub open spec fn key(&self) -> (Seq<char>, Seq<char>, Seq<char>) {
        (self.symbol@, self.group@, self.barca@)
    }
}

pub open spec fn asset_slot_wf<N>(
    ledger: Seq<WalletAllocation<N>>,
    prices: Seq<Seq<char>>,
    s: AssetSlot,
    n: int,
) -> bool {
    &&& s.rows@.len() > 0
    &&& last_position(prices, s.symbol@) == Some(s.quote as int)
    &&& forall|j: int|
        0 <= j < s.rows@.len() ==> (#[trigger] s.rows@[j]) < n && asset_key(ledger[s.rows@[j] as int])
            == s.key()
    &&& forall|j1: int, j2: int| 0 <= j1 < j2 < s.rows@.len() ==> s.rows@[j1] < s.rows@[j2]
}

/// `slots` groups the priced rows among the first `n` of `ledger` by key:
/// one slot per key, slots in order of their first row, every priced row in
/// a slot and only priced rows there.
pub open spec fn asset_plan_upto<N>(
    ledger: Seq<WalletAllocation<N>>,
    prices: Seq<Seq<char>>,
    slots: Seq<AssetSlot>,
    n: int,
) -> bool {
    &&& forall|k: int| 0 <= k < slots.len() ==> asset_slot_wf(ledger, prices, #[trigger] slots[k], n)
    &&& forall|k1: int, k2: int|
        0 <= k1 < k2 < slots.len() ==> slots[k1].key() != slots[k2].key()
    &&& forall|k1: int, k2: int|
        0 <= k1 < k2 < slots.len() ==> slots[k1].rows@[0] < slots[k2].rows@[0]
    &&& forall|r: int|
        0 <= r < n && is_priced(ledger, prices, r) ==> exists|k: int|
            0 <= k < slots.len() && #[trigger] holds_row(slots[k].rows@, r)
}

/// The asset plan of a whole ledger.
pub open spec fn asset_plan<N>(
    ledger: Seq<WalletAllocation<N>>,
    prices: Seq<Seq<char>>,
    slots: Seq<AssetSlot>,
) -> bool {
    asset_plan_upto(ledger, prices, slots, ledger.len() as int)
}

/// Sum of a figure `w` over the positions listed in `s`.
pub open spec fn rows_total(s: Seq<usize>, w: spec_fn(int) -> int) -> int
    decreases s.len(),
{
    if s.len() == 0 {
        0
    } else {
        rows_total(s.drop_last(), w) + w(s.last() as int)
    }
}

/// Sum of a figure `w` over the rows of all asset slots.
pub open spec fn slots_total(slots: Seq<AssetSlot>, w: spec_fn(int) -> int) -> int
    decreases slots.len(),
{
    if slots.len() == 0 {
        0
    } else {
        slots_total(slots.drop_last(), w) + rows_total(slots.last().rows@, w)
    }
}

/// Sum of a figure `w` over the members of all groups.
pub open spec fn groups_total(groups: Seq<NameGroup>, w: spec_fn(int) -> int) -> int
    decreases groups.len(),
{
    if groups.len() == 0 {
        0
    } else {
        groups_total(groups.drop_last(), w) + rows_total(groups.last().members@, w)
    }
}

/// Sum of a figure `w` over the priced rows among the first `n` of a ledger.
pub open spec fn priced_total<N>(
    ledger: Seq<WalletAllocation<N>>,
    prices: Seq<Seq<char>>,
    n: int,
    w: spec_fn(int) -> int,
) -> int
    decreases n,
{
    if n <= 0 {
        0
    } else {
        priced_total(ledger, prices, n - 1, w) + if is_priced(ledger, prices, n - 1) {
            w(n - 1)
        } else {
            0
        }
    }
}

/// Sum of a figure `w` over the positions `0..n`.
pub open spec fn range_total(n: int, w: spec_fn(int) -> int) -> int
    decreases n,
{
    if n <= 0 {
        0
    } else {
        range_total(n - 1, w) + w(n - 1)
    }
}

proof fn lemma_slots_total_update(slots: Seq<AssetSlot>, k: int, x: AssetSlot, w: spec_fn(int) -> int)
    requires
        0 <= k < slots.len(),
    ensures
        slots_total(slots.update(k, x), w) == slots_total(slots, w) - rows_total(slots[k].rows@, w)
            + rows_total(x.rows@, w),
    decreases slots.len(),
{
    let u = slots.update(k, x);
    if k == slots.len() - 1 {
        assert(u.drop_last() =~= slots.drop_last());
    } else {
        assert(u.drop_last() =~= slots.drop_last().update(k, x));
        lemma_slots_total_update(slots.drop_last(), k, x, w);
    }
}

proof fn lemma_groups_total_update(groups: Seq<NameGroup>, k: int, x: NameGroup, w: spec_fn(int) -> int)
    requires
        0 <= k < groups.len(),
    ensures
        groups_total(groups.update(k, x), w) == groups_total(groups, w) - rows_total(
            groups[k].members@,
            w,
        ) + rows_total(x.members@, w),
    decreases groups.len(),
{
    let u = groups.update(k, x);
    if k == groups.len() - 1 {
        assert(u.drop_last() =~= groups.drop_last());
    } else {
        assert(u.drop_last() =~= groups.drop_last().update(k, x));
        lemma_groups_total_update(groups.drop_last(), k, x, w);
    }
}

proof fn lemma_rows_total_push(s: Seq<usize>, r: usize, w: spec_fn(int) -> int)
    ensures
        rows_total(s.push(r), w) == rows_total(s, w) + w(r as int),
{
    assert(s.push(r).drop_last() =~= s);
}

fn text_or_default(o: &Option<String>) -> (r: String)
    ensures
        r@ == text_or_empty(*o),
{
    match o {
        Some(s) => s.clone(),
        None => String::new(),
    }
}

fn find_asset_slot(slots: &Vec<AssetSlot>, symbol: &String, group: &String, barca: &String) -> (r:
    Option<usize>)
    ensures
        match r {
            Some(k) => k < slots@.len() && slots@[k as int].key() == (symbol@, group@, barca@),
            None => forall|k: int|
                0 <= k < slots@.len() ==> slots@[k].key() != (symbol@, group@, barca@),
        },
{
    let mut k: usize = 0;
    while k < slots.len()
        invariant
            k <= slots@.len(),
            forall|i: int| 0 <= i < k ==> slots@[i].key() != (symbol@, group@, barca@),
        decreases slots.len() - k,
    {
        if slots[k].symbol == *symbol && slots[k].group == *group && slots[k].barca == *barca {
            return Some(k);
        }
        k = k + 1;
    }
    None
}

proof fn lemma_slot_wf_grows<N>(
    ledger: Seq<WalletAllocation<N>>,
    prices: Seq<Seq<char>>,
    s: AssetSlot,
    n: int,
)
    requires
        asset_slot_wf(ledger, prices, s, n),
    ensures
        asset_slot_wf(ledger, prices, s, n + 1),
{
}

/// Groups the priced ledger rows by `(symbol, group, bucket)`; rows whose
/// symbol has no listing are left out.
pub fn aggregate_assets<N>(ledger: &Vec<WalletAllocation<N>>, index: &PriceIndex) -> (slots: Vec<
    AssetSlot,
>)
    ensures
        asset_plan(ledger@, index@, slots@),
        forall|w: spec_fn(int) -> int|
            #[trigger] slots_total(slots@, w) == priced_total(ledger@, index@, ledger@.len() as int, w),
{
    let mut slots: Vec<AssetSlot> = Vec::new();
    let mut r: usize = 0;
    while r < ledger.len()
        invariant
            r <= ledger@.len(),
            asset_plan_upto(ledger@, index@, slots@, r as int),
            forall|w: spec_fn(int) -> int|
                #[trigger] slots_total(slots@, w) == priced_total(ledger@, index@, r as int, w),
        decreases ledger.len() - r,
    {
        let entry = &ledger[r];
        let ghost before = slots@;
        match index.lookup(&entry.symbol) {
            None => {
                proof {
                    assert forall|k: int| 0 <= k < slots@.len() implies asset_slot_wf(
                        ledger@,
                        index@,
                        #[trigger] slots@[k],
                        r + 1,
                    ) by {
                        lemma_slot_wf_grows(ledger@, index@, slots@[k], r as int);
                    }
                    assert forall|w: spec_fn(int) -> int| #[trigger] slots_total(slots@, w)
                        == priced_total(ledger@, index@, r + 1, w) by {
                        assert(slots_total(slots@, w) == priced_total(ledger@, index@, r as int, w));
                    }
                }
            },
            Some(q) => {
                let group = text_or_default(&entry.group_name);
                let barca = text_or_default(&entry.barca);
                match find_asset_slot(&slots, &entry.symbol, &group, &barca) {
                    Some(k) => {
                        slots[k].rows.push(r);
                        proof {
                            assert(slots@ == before.update(k as int, slots@[k as int]));
                            assert(slots@[k as int].rows@ == before[k as int].rows@.push(r));
                            assert forall|w: spec_fn(int) -> int| #[trigger] slots_total(slots@, w)
                                == priced_total(ledger@, index@, r + 1, w) by {
                                assert(slots_total(before, w) == priced_total(ledger@, index@, r as int, w));
                                lemma_slots_total_update(before, k as int, slots@[k as int], w);
                                lemma_rows_total_push(before[k as int].rows@, r, w);
                            }
                            assert forall|i: int| 0 <= i < slots@.len() implies asset_slot_wf(
                                ledger@,
                                index@,
                                #[trigger] slots@[i],
                                r + 1,
                            ) by {
                                lemma_slot_wf_grows(ledger@, index@, before[i], r as int);
                                if i == k {
                                    assert(slots@[i].rows@ == before[i].rows@.push(r));
                                }
                            }
                            assert forall|i: int, j: int|
                                0 <= i < slots@.len() && 0 <= j < before[i].rows@.len()
                                    implies slots@[i].rows@[j] == before[i].rows@[j] by {
                                if i == k {
                                    assert(slots@[i].rows@ == before[i].rows@.push(r));
                                }
                            }
                            assert forall|x: int|
                                0 <= x < r + 1 && is_priced(ledger@, index@, x) implies exists|i: int|
                                0 <= i < slots@.len() && #[trigger] holds_row(slots@[i].rows@, x) by {
                                if x == r {
                                    assert(slots@[k as int].rows@.last() == r);
                                    assert(holds_row(slots@[k as int].rows@, x));
                                } else {
                                    let i = choose|i: int|
                                        0 <= i < before.len() && #[trigger] holds_row(before[i].rows@, x);
                                    let j = choose|j: int|
                                        0 <= j < before[i].rows@.len() && before[i].rows@[j]
                                            as int == x;
                                    assert(slots@[i].rows@[j] as int == x);
                                    assert(holds_row(slots@[i].rows@, x));
                                }
                            }
                        }
                    },
                    None => {
                        let mut rows: Vec<usize> = Vec::new();
                        rows.push(r);
                        let slot = AssetSlot { symbol: entry.symbol.clone(), group, barca, quote: q, rows };
                        slots.push(slot);
                        proof {
                            assert forall|w: spec_fn(int) -> int| #[trigger] slots_total(slots@, w)
                                == priced_total(ledger@, index@, r + 1, w) by {
                                assert(slots_total(before, w) == priced_total(ledger@, index@, r as int, w));
                                assert(slots@.drop_last() =~= before);
                                lemma_rows_total_push(Seq::<usize>::empty(), r, w);
                                assert(slots@.last().rows@ =~= Seq::<usize>::empty().push(r));
                            }
                            lemma_last_position_bounds(index@, entry.symbol@);
                            assert forall|i: int| 0 <= i < slots@.len() implies asset_slot_wf(
                                ledger@,
                                index@,
                                #[trigger] slots@[i],
                                r + 1,
                            ) by {
                                if i < before.len() {
                                    lemma_slot_wf_grows(ledger@, index@, before[i], r as int);
                                    assert(slots@[i] == before[i]);
                                }
                            }
                            assert forall|x: int|
                                0 <= x < r + 1 && is_priced(ledger@, index@, x) implies exists|i: int|
                                0 <= i < slots@.len() && #[trigger] holds_row(slots@[i].rows@, x) by {
                                if x == r {
                                    assert(slots@[before.len() as int].rows@[0] == r);
                                    assert(holds_row(slots@[before.len() as int].rows@, x));
                                } else {
                                    let i = choose|i: int|
                                        0 <= i < before.len() && #[trigger] holds_row(before[i].rows@, x);
                                    assert(slots@[i] == before[i]);
                                }
                            }
                        }
                    },
                }
            },
        }
        r = r + 1;
    }
    slots
}

/// The members that share one group or bucket name.
pub struct NameGroup {
    pub name: String,
    /// Positions of the members, ascending.
    pub members: Vec<usize>,
}

pub open spec fn name_group_wf(names: Seq<Seq<char>>, g: NameGroup, n: int) -> bool {
    &&& g.members@.len() > 0
    &&& forall|j: int|
        0 <= j < g.members@.len() ==> (#[trigger] g.members@[j]) < n && names[g.members@[j] as int]
            == g.name@
    &&& forall|j1: int, j2: int|
        0 <= j1 < j2 < g.members@.len() ==> g.members@[j1] < g.members@[j2]
}

/// `groups` partitions the first `n` positions of `names` by name: one group
/// per name, groups in order of their first member.
pub open spec fn name_plan_upto(names: Seq<Seq<char>>, groups: Seq<NameGroup>, n: int) -> bool {
    &&& forall|k: int| 0 <= k < groups.len() ==> name_group_wf(names, #[trigger] groups[k], n)
    &&& forall|k1: int, k2: int| 0 <= k1 < k2 < groups.len() ==> groups[k1].name@ != groups[k2].name@
    &&& forall|k1: int, k2: int|
        0 <= k1 < k2 < groups.len() ==> groups[k1].members@[0] < groups[k2].members@[0]
    &&& forall|i: int| 0 <= i < n ==> #[trigger] in_some_group(groups, i)
}

/// Position `i` is a member of some group.
pub open spec fn in_some_group(groups: Seq<NameGroup>, i: int) -> bool {
    exists|k: int| 0 <= k < groups.len() && #[trigger] holds_row(groups[k].members@, i)
}

/// `groups` partitions all positions of `names` by name.
pub open spec fn name_plan(names: Seq<Seq<char>>, groups: Seq<NameGroup>) -> bool {
    name_plan_upto(names, groups, names.len() as int)
}

proof fn lemma_name_group_grows(names: Seq<Seq<char>>, g: NameGroup, n: int)
    requires
        name_group_wf(names, g, n),
    ensures
        name_group_wf(names, g, n + 1),
{
}

fn find_name_group(groups: &Vec<NameGroup>, name: &String) -> (r: Option<usize>)
    ensures
        match r {
            Some(k) => k < groups@.len() && groups@[k as int].name@ == name@,
            None => forall|k: int| 0 <= k < groups@.len() ==> groups@[k].name@ != name@,
        },
{
    let mut k: usize = 0;
    while k < groups.len()
        invariant
            k <= groups@.len(),
            forall|i: int| 0 <= i < k ==> groups@[i].name@ != name@,
        decreases groups.len() - k,
    {
        if groups[k].name == *name {
            return Some(k);
        }
        k = k + 1;
    }
    None
}

/// Partitions the positions of `names` by name.
pub fn partition_by_name(names: &Vec<String>) -> (groups: Vec<NameGroup>)
    ensures
        name_plan(texts(names@), groups@),
        forall|w: spec_fn(int) -> int|
            #[trigger] groups_total(groups@, w) == range_total(names@.len() as int, w),
{
    let ghost all = texts(names@);
    let mut groups: Vec<NameGroup> = Vec::new();
    let mut i: usize = 0;
    while i < names.len()
        invariant
            i <= names@.len(),
            all == texts(names@),
            name_plan_upto(all, groups@, i as int),
            forall|w: spec_fn(int) -> int| #[trigger] groups_total(groups@, w) == range_total(i as int, w),
        decreases names.len() - i,
    {
        let ghost before = groups@;
        match find_name_group(&groups, &names[i]) {
            Some(k) => {
                groups[k].members.push(i);
                proof {
                    assert(groups@ == before.update(k as int, groups@[k as int]));
                    assert(groups@[k as int].members@ == before[k as int].members@.push(i));
                    assert forall|w: spec_fn(int) -> int| #[trigger] groups_total(groups@, w)
                        == range_total(i + 1, w) by {
                        assert(groups_total(before, w) == range_total(i as int, w));
                        lemma_groups_total_update(before, k as int, groups@[k as int], w);
                        lemma_rows_total_push(before[k as int].members@, i, w);
                    }
                    assert forall|g: int| 0 <= g < groups@.len() implies name_group_wf(
                        all,
                        #[trigger] groups@[g],
                        i + 1,
                    ) by {
                        lemma_name_group_grows(all, before[g], i as int);
                        if g == k {
                            assert(groups@[g].members@ == before[g].members@.push(i));
                        }
                    }
                    assert forall|g: int, j: int|
                        0 <= g < groups@.len() && 0 <= j < before[g].members@.len()
                            implies groups@[g].members@[j] == before[g].members@[j] by {
                        if g == k {
                            assert(groups@[g].members@ == before[g].members@.push(i));
                        }
                    }
                    assert forall|x: int| 0 <= x < i + 1 implies #[trigger] in_some_group(
                        groups@,
                        x,
                    ) by {
                        if x == i {
                            assert(groups@[k as int].members@.last() == i);
                            assert(holds_row(groups@[k as int].members@, x));
                        } else {
                            assert(in_some_group(before, x));
                            let g = choose|g: int|
                                0 <= g < before.len() && #[trigger] holds_row(before[g].members@, x);
                            let j = choose|j: int|
                                0 <= j < before[g].members@.len() && before[g].members@[j]
                                    as int == x;
                            assert(groups@[g].members@[j] as int == x);
                            assert(holds_row(groups@[g].members@, x));
                        }
                    }
                }
            },
            None => {
                let mut members: Vec<usize> = Vec::new();
                members.push(i);
                groups.push(NameGroup { name: names[i].clone(), members });
                proof {
                    assert forall|w: spec_fn(int) -> int| #[trigger] groups_total(groups@, w)
                        == range_total(i + 1, w) by {
                        assert(groups_total(before, w) == range_total(i as int, w));
                        assert(groups@.drop_last() =~= before);
                        lemma_rows_total_push(Seq::<usize>::empty(), i, w);
                        assert(groups@.last().members@ =~= Seq::<usize>::empty().push(i));
                    }
                    assert forall|g: int| 0 <= g < groups@.len() implies name_group_wf(
                        all,
                        #[trigger] groups@[g],
                        i + 1,
                    ) by {
                        if g < before.len() {
                            lemma_name_group_grows(all, before[g], i as int);
                            assert(groups@[g] == before[g]);
                        }
                    }
                    assert forall|x: int| 0 <= x < i + 1 implies #[trigger] in_some_group(
                        groups@,
                        x,
                    ) by {
                        if x == i {
                            assert(groups@[before.len() as int].members@[0] == i);
                            assert(holds_row(groups@[before.len() as int].members@, x));
                        } else {
                            assert(in_some_group(before, x));
                            let g = choose|g: int|
                                0 <= g < before.len() && #[trigger] holds_row(before[g].members@, x);
                            assert(groups@[g] == before[g]);
                        }
                    }
                }
            },
        }
        i = i + 1;
    }
    groups
}

/// The group names of the asset slots, in order.
pub open spec fn slot_groups(slots: Seq<AssetSlot>) -> Seq<Seq<char>> {
    Seq::new(slots.len(), |k: int| slots[k].group@)
}

/// The bucket names of the asset slots, in order.
pub open spec fn slot_barcas(slots: Seq<AssetSlot>) -> Seq<Seq<char>> {
    Seq::new(slots.len(), |k: int| slots[k].barca@)
}

/// Groups the asset slots by group name.
pub fn build_per_group(slots: &Vec<AssetSlot>) -> (groups: Vec<NameGroup>)
    ensures
        name_plan(slot_groups(slots@), groups@),
        forall|w: spec_fn(int) -> int|
            #[trigger] groups_total(groups@, w) == range_total(slots@.len() as int, w),
{
    let mut names: Vec<String> = Vec::new();
    let mut k: usize = 0;
    while k < slots.len()
        invariant
            k <= slots@.len(),
            names@.len() == k,
            forall|i: int| 0 <= i < k ==> #[trigger] names@[i]@ == slots@[i].group@,
        decreases slots.len() - k,
    {
        names.push(slots[k].group.clone());
        k = k + 1;
    }
    proof {
        assert(texts(names@) =~= slot_groups(slots@));
    }
    partition_by_name(&names)
}

/// Groups the asset slots by bucket name.
pub fn actual_values_by_barca(slots: &Vec<AssetSlot>) -> (buckets: Vec<NameGroup>)
    ensures
        name_plan(slot_barcas(slots@), buckets@),
        forall|w: spec_fn(int) -> int|
            #[trigger] groups_total(buckets@, w) == range_total(slots@.len() as int, w),
{
    let mut names: Vec<String> = Vec::new();
    let mut k: usize = 0;
    while k < slots.len()
        invariant
            k <= slots@.len(),
            names@.len() == k,
            forall|i: int| 0 <= i < k ==> #[trigger] names@[i]@ == slots@[i].barca@,
        decreases slots.len() - k,
    {
        names.push(slots[k].barca.clone());
        k = k + 1;
    }
    proof {
        assert(texts(names@) =~= slot_barcas(slots@));
    }
    partition_by_name(&names)
}

/// A target allocation for one bucket.
pub struct BarcaTarget<T> {
    pub barca: String,
    pub target_percent: T,
}

/// One row of the bucket report: the bucket, the target that applies to it
/// (a position in the target table) and its holdings (a position in the
/// bucket groups), each absent where there is none.
pub struct BarcaLine {
    pub barca: String,
    pub target: Option<usize>,
    pub actual: Option<usize>,
}

/// The bucket names of a target table, in order.
pub open spec fn target_names<T>(targets: Seq<BarcaTarget<T>>) -> Seq<Seq<char>> {
    Seq::new(targets.len(), |i: int| targets[i].barca@)
}

/// The names of a list of groups, in order.
pub open spec fn group_names(groups: Seq<NameGroup>) -> Seq<Seq<char>> {
    Seq::new(groups.len(), |k: int| groups[k].name@)
}

/// Line `j` reports the untargeted bucket `b`.
pub open spec fn reports_untargeted(lines: Seq<BarcaLine>, j: int, b: int) -> bool {
    is_pos(lines[j].actual, b)
}

/// The bucket report: first one line per target, in the table's order, with
/// the holdings of the bucket of that name if there are any; then one line
/// per bucket held without a target, in the order of the buckets, with no
/// target.
pub open spec fn barca_report<T>(
    buckets: Seq<NameGroup>,
    targets: Seq<BarcaTarget<T>>,
    lines: Seq<BarcaLine>,
) -> bool {
    let tn = target_names(targets);
    let bn = group_names(buckets);
    &&& targets.len() <= lines.len()
    &&& forall|i: int|
        0 <= i < targets.len() ==> {
            &&& (#[trigger] lines[i]).barca@ == tn[i]
            &&& is_pos(lines[i].target, i)
            &&& match last_position(bn, tn[i]) {
                Some(b) => is_pos(lines[i].actual, b),
                None => lines[i].actual is None,
            }
        }
    &&& forall|j: int|
        targets.len() <= j < lines.len() ==> {
            &&& (#[trigger] lines[j]).target is None
            &&& lines[j].actual is Some
            &&& (lines[j].actual->0 as int) < buckets.len()
            &&& lines[j].barca@ == bn[lines[j].actual->0 as int]
            &&& last_position(tn, bn[lines[j].actual->0 as int]) is None
        }
    &&& forall|j1: int, j2: int|
        targets.len() <= j1 < j2 < lines.len() ==> lines[j1].actual->0 < lines[j2].actual->0
    &&& forall|b: int|
        0 <= b < buckets.len() && #[trigger] last_position(tn, bn[b]) is None ==> exists|j: int|
            targets.len() <= j < lines.len() && #[trigger] reports_untargeted(lines, j, b)
}

/// Reconciles held buckets with the target table; no bucket of either side is
/// left out.
pub fn build_per_barca<T>(buckets: &Vec<NameGroup>, targets: &Vec<BarcaTarget<T>>) -> (lines: Vec<
    BarcaLine,
>)
    ensures
        barca_report(buckets@, targets@, lines@),
{
    let ghost tn = target_names(targets@);
    let ghost bn = group_names(buckets@);
    let mut bucket_names: Vec<String> = Vec::new();
    let mut k: usize = 0;
    while k < buckets.len()
        invariant
            k <= buckets@.len(),
            bucket_names@.len() == k,
            forall|i: int| 0 <= i < k ==> #[trigger] bucket_names@[i]@ == buckets@[i].name@,
        decreases buckets.len() - k,
    {
        bucket_names.push(buckets[k].name.clone());
        k = k + 1;
    }
    let mut target_names_v: Vec<String> = Vec::new();
    let mut lines: Vec<BarcaLine> = Vec::new();
    let mut i: usize = 0;
    proof {
        assert(texts(bucket_names@) =~= bn);
    }
    while i < targets.len()
        invariant
            i <= targets@.len(),
            tn == target_names(targets@),
            bn == group_names(buckets@),
            texts(bucket_names@) == bn,
            target_names_v@.len() == i,
            lines@.len() == i,
            forall|x: int| 0 <= x < i ==> #[trigger] target_names_v@[x]@ == tn[x],
            forall|x: int|
                0 <= x < i ==> {
                    &&& (#[trigger] lines@[x]).barca@ == tn[x]
                    &&& is_pos(lines@[x].target, x)
                    &&& match last_position(bn, tn[x]) {
                        Some(b) => is_pos(lines@[x].actual, b),
                        None => lines@[x].actual is None,
                    }
                },
        decreases targets.len() - i,
    {
        let name = targets[i].barca.clone();
        let actual = position_of(&bucket_names, &name);
        target_names_v.push(targets[i].barca.clone());
        lines.push(BarcaLine { barca: name, target: Some(i), actual });
        i = i + 1;
    }
    proof {
        assert(texts(target_names_v@) =~= tn);
    }
    let mut b: usize = 0;
    while b < buckets.len()
        invariant
            b <= buckets@.len(),
            targets@.len() <= lines@.len(),
            tn == target_names(targets@),
            bn == group_names(buckets@),
            texts(target_names_v@) == tn,
            forall|x: int|
                0 <= x < targets@.len() ==> {
                    &&& (#[trigger] lines@[x]).barca@ == tn[x]
                    &&& is_pos(lines@[x].target, x)
                    &&& match last_position(bn, tn[x]) {
                        Some(c) => is_pos(lines@[x].actual, c),
                        None => lines@[x].actual is None,
                    }
                },
            forall|j: int|
                targets@.len() <= j < lines@.len() ==> {
                    &&& (#[trigger] lines@[j]).target is None
                    &&& lines@[j].actual is Some
                    &&& (lines@[j].actual->0 as int) < b
                    &&& lines@[j].barca@ == bn[lines@[j].actual->0 as int]
                    &&& last_position(tn, bn[lines@[j].actual->0 as int]) is None
                },
            forall|j1: int, j2: int|
                targets@.len() <= j1 < j2 < lines@.len() ==> lines@[j1].actual->0
                    < lines@[j2].actual->0,
            forall|c: int|
                0 <= c < b && #[trigger] last_position(tn, bn[c]) is None ==> exists|j: int|
                    targets@.len() <= j < lines@.len() && #[trigger] reports_untargeted(lines@, j, c),
        decreases buckets.len() - b,
    {
        let ghost before = lines@;
        match position_of(&target_names_v, &buckets[b].name) {
            Some(_) => {},
            None => {
                lines.push(BarcaLine { barca: buckets[b].name.clone(), target: None, actual: Some(b) });
                proof {
                    assert forall|c: int|
                        0 <= c < b + 1 && #[trigger] last_position(tn, bn[c]) is None implies exists|
                        j: int,
                    |
                        targets@.len() <= j < lines@.len() && #[trigger] reports_untargeted(
                            lines@,
                            j,
                            c,
                        ) by {
                        if c == b {
                            assert(reports_untargeted(lines@, lines@.len() - 1, c));
                        } else {
                            let j = choose|j: int|
                                targets@.len() <= j < before.len() && #[trigger] reports_untargeted(
                                    before,
                                    j,
                                    c,
                                );
                            assert(reports_untargeted(lines@, j, c));
                        }
                    }
                }
            },
        }
        b = b + 1;
    }
    lines
}

/// Which inputs feed each row of the allocation report.
pub struct AllocationPlan {
    /// One slot per `(symbol, group, bucket)` key of the priced ledger rows.
    pub per_asset: Vec<AssetSlot>,
    /// One group per group name, over positions in `per_asset`.
    pub per_group: Vec<NameGroup>,
    /// The bucket report: positions in `per_barca_actual` and in the targets.
    pub per_barca: Vec<BarcaLine>,
    /// One group per bucket name, over positions in `per_asset`.
    pub per_barca_actual: Vec<NameGroup>,
}

/// Plans the allocation report of a ledger against a list of listings and a
/// bucket target table.
pub fn compute_allocations<N, P, T>(
    ledger: &Vec<WalletAllocation<N>>,
    quotes: &Vec<CryptoData<P>>,
    barca_targets: &Vec<BarcaTarget<T>>,
) -> (plan: AllocationPlan)
    ensures
        asset_plan(ledger@, symbols_of(quotes@), plan.per_asset@),
        forall|w: spec_fn(int) -> int|
            #[trigger] slots_total(plan.per_asset@, w) == priced_total(
                ledger@,
                symbols_of(quotes@),
                ledger@.len() as int,
                w,
            ),
        name_plan(slot_groups(plan.per_asset@), plan.per_group@),
        forall|w: spec_fn(int) -> int|
            #[trigger] groups_total(plan.per_group@, w) == range_total(plan.per_asset@.len() as int, w),
        name_plan(slot_barcas(plan.per_asset@), plan.per_barca_actual@),
        forall|w: spec_fn(int) -> int|
            #[trigger] groups_total(plan.per_barca_actual@, w) == range_total(
                plan.per_asset@.len() as int,
                w,
            ),
        barca_report(plan.per_barca_actual@, barca_targets@, plan.per_barca@),
{
    let index = build_index(quotes);
    let per_asset = aggregate_assets(ledger, &index);
    let per_group = build_per_group(&per_asset);
    let per_barca_actual = actual_values_by_barca(&per_asset);
    let per_barca = build_per_barca(&per_barca_actual, barca_targets);
    AllocationPlan { per_asset, per_group, per_barca, per_barca_actual }
}

/// Asset slot `k` holds ledger row `r`.
pub open spec fn slot_holds(slots: Seq<AssetSlot>, k: int, r: int) -> bool {
    0 <= k < slots.len() && holds_row(slots[k].rows@, r)
}

/// Ledger row `r` is held by some asset slot.
pub open spec fn placed(slots: Seq<AssetSlot>, r: int) -> bool {
    exists|k: int| #[trigger] slot_holds(slots, k, r)
}

/// When every ledger row has a listing, every row lands in exactly one asset
/// slot, once.
pub proof fn lemma_asset_rows_cover_ledger<N>(
    ledger: Seq<WalletAllocation<N>>,
    prices: Seq<Seq<char>>,
    slots: Seq<AssetSlot>,
)
    requires
        asset_plan(ledger, prices, slots),
        forall|r: int| 0 <= r < ledger.len() ==> is_priced(ledger, prices, r),
    ensures
        forall|r: int| 0 <= r < ledger.len() ==> #[trigger] placed(slots, r),
        forall|k1: int, k2: int, r: int|
            #[trigger] slot_holds(slots, k1, r) && #[trigger] slot_holds(slots, k2, r) ==> k1 == k2,
        forall|k: int, j1: int, j2: int|
            0 <= k < slots.len() && 0 <= j1 < slots[k].rows@.len() && 0 <= j2 < slots[k].rows@.len()
                && slots[k].rows@[j1] == slots[k].rows@[j2] ==> j1 == j2,
{
    assert forall|r: int| 0 <= r < ledger.len() implies #[trigger] placed(slots, r) by {
        assert(is_priced(ledger, prices, r));
        let k = choose|k: int| 0 <= k < slots.len() && #[trigger] holds_row(slots[k].rows@, r);
        assert(slot_holds(slots, k, r));
    }
    lemma_asset_slot_unique(ledger, prices, slots);
    assert forall|k: int, j1: int, j2: int|
        0 <= k < slots.len() && 0 <= j1 < slots[k].rows@.len() && 0 <= j2 < slots[k].rows@.len()
            && slots[k].rows@[j1] == slots[k].rows@[j2] implies j1 == j2 by {
        assert(asset_slot_wf(ledger, prices, slots[k], ledger.len() as int));
    }
}

/// No ledger row lands in two asset slots.
pub proof fn lemma_asset_slot_unique<N>(
    ledger: Seq<WalletAllocation<N>>,
    prices: Seq<Seq<char>>,
    slots: Seq<AssetSlot>,
)
    requires
        asset_plan(ledger, prices, slots),
    ensures
        forall|k1: int, k2: int, r: int|
            #[trigger] slot_holds(slots, k1, r) && #[trigger] slot_holds(slots, k2, r) ==> k1 == k2,
{
    assert forall|k1: int, k2: int, r: int|
        #[trigger] slot_holds(slots, k1, r) && #[trigger] slot_holds(slots, k2, r) implies k1
        == k2 by {
        assert(asset_slot_wf(ledger, prices, slots[k1], ledger.len() as int));
        assert(asset_slot_wf(ledger, prices, slots[k2], ledger.len() as int));
        let j1 = choose|j: int| 0 <= j < slots[k1].rows@.len() && slots[k1].rows@[j] as int == r;
        let j2 = choose|j: int| 0 <= j < slots[k2].rows@.len() && slots[k2].rows@[j] as int == r;
        assert(slots[k1].key() == asset_key(ledger[r]));
        assert(slots[k2].key() == asset_key(ledger[r]));
    }
}

/// A ledger row whose symbol has no listing is in no asset slot.
pub proof fn lemma_unpriced_rows_dropped<N>(
    ledger: Seq<WalletAllocation<N>>,
    prices: Seq<Seq<char>>,
    slots: Seq<AssetSlot>,
    r: int,
)
    requires
        asset_plan(ledger, prices, slots),
        0 <= r < ledger.len(),
        !is_priced(ledger, prices, r),
    ensures
        forall|k: int| !#[trigger] slot_holds(slots, k, r),
{
    assert forall|k: int| !#[trigger] slot_holds(slots, k, r) by {
        if slot_holds(slots, k, r) {
            assert(asset_slot_wf(ledger, prices, slots[k], ledger.len() as int));
            let j = choose|j: int| 0 <= j < slots[k].rows@.len() && slots[k].rows@[j] as int == r;
            assert(asset_key(ledger[r]) == slots[k].key());
        }
    }
}

/// Two priced ledger rows with the same `(symbol, group, bucket)` key land in
/// the same asset slot, where their figures add up.
pub proof fn lemma_same_key_same_slot<N>(
    ledger: Seq<WalletAllocation<N>>,
    prices: Seq<Seq<char>>,
    slots: Seq<AssetSlot>,
    r1: int,
    r2: int,
)
    requires
        asset_plan(ledger, prices, slots),
        0 <= r1 < ledger.len(),
        0 <= r2 < ledger.len(),
        is_priced(ledger, prices, r1),
        asset_key(ledger[r1]) == asset_key(ledger[r2]),
    ensures
        exists|k: int| slot_holds(slots, k, r1) && slot_holds(slots, k, r2),
{
    assert(is_priced(ledger, prices, r2));
    let k1 = choose|k: int| 0 <= k < slots.len() && #[trigger] holds_row(slots[k].rows@, r1);
    let k2 = choose|k: int| 0 <= k < slots.len() && #[trigger] holds_row(slots[k].rows@, r2);
    assert(asset_slot_wf(ledger, prices, slots[k1], ledger.len() as int));
    assert(asset_slot_wf(ledger, prices, slots[k2], ledger.len() as int));
    let j1 = choose|j: int| 0 <= j < slots[k1].rows@.len() && slots[k1].rows@[j] as int == r1;
    let j2 = choose|j: int| 0 <= j < slots[k2].rows@.len() && slots[k2].rows@[j] as int == r2;
    assert(slots[k1].key() == slots[k2].key());
    if k1 != k2 {
        if k1 < k2 {
            assert(slots[k1].key() != slots[k2].key());
        } else {
            assert(slots[k2].key() != slots[k1].key());
        }
    }
    assert(slot_holds(slots, k1, r1) && slot_holds(slots, k1, r2));
}

/// Group `g` holds member `i`.
pub open spec fn group_holds(groups: Seq<NameGroup>, g: int, i: int) -> bool {
    0 <= g < groups.len() && holds_row(groups[g].members@, i)
}

/// Member `i` is held by some group.
pub open spec fn grouped(groups: Seq<NameGroup>, i: int) -> bool {
    exists|g: int| #[trigger] group_holds(groups, g, i)
}

/// Grouping by name never drops nor repeats a member: every position lands in
/// exactly one group, once. Applied to the asset slots, the groups (and the
/// buckets) together hold every asset slot once.
pub proof fn lemma_name_plan_partitions(names: Seq<Seq<char>>, groups: Seq<NameGroup>)
    requires
        name_plan(names, groups),
    ensures
        forall|i: int| 0 <= i < names.len() ==> #[trigger] grouped(groups, i),
        forall|g1: int, g2: int, i: int|
            #[trigger] group_holds(groups, g1, i) && #[trigger] group_holds(groups, g2, i) ==> g1
                == g2,
        forall|g: int, j1: int, j2: int|
            0 <= g < groups.len() && 0 <= j1 < groups[g].members@.len() && 0 <= j2
                < groups[g].members@.len() && groups[g].members@[j1] == groups[g].members@[j2]
                ==> j1 == j2,
{
    assert forall|i: int| 0 <= i < names.len() implies #[trigger] grouped(groups, i) by {
        assert(in_some_group(groups, i));
        let g = choose|g: int| 0 <= g < groups.len() && #[trigger] holds_row(groups[g].members@, i);
        assert(group_holds(groups, g, i));
    }
    assert forall|g1: int, g2: int, i: int|
        #[trigger] group_holds(groups, g1, i) && #[trigger] group_holds(groups, g2, i) implies g1
        == g2 by {
        assert(name_group_wf(names, groups[g1], names.len() as int));
        assert(name_group_wf(names, groups[g2], names.len() as int));
        let j1 = choose|j: int| 0 <= j < groups[g1].members@.len() && groups[g1].members@[j] as int == i;
        let j2 = choose|j: int| 0 <= j < groups[g2].members@.len() && groups[g2].members@[j] as int == i;
        assert(groups[g1].name@ == names[i]);
        assert(groups[g2].name@ == names[i]);
    }
    assert forall|g: int, j1: int, j2: int|
        0 <= g < groups.len() && 0 <= j1 < groups[g].members@.len() && 0 <= j2
            < groups[g].members@.len() && groups[g].members@[j1] == groups[g].members@[j2] implies j1
        == j2 by {
        assert(name_group_wf(names, groups[g], names.len() as int));
    }
}

/// The bucket report drops no bucket: every bucket of the target table and
/// every bucket with holdings has a line of its name.
pub proof fn lemma_barca_report_keeps_all<T>(
    buckets: Seq<NameGroup>,
    targets: Seq<BarcaTarget<T>>,
    lines: Seq<BarcaLine>,
)
    requires
        barca_report(buckets, targets, lines),
    ensures
        forall|i: int|
            0 <= i < targets.len() ==> exists|j: int|
                0 <= j < lines.len() && lines[j].barca@ == #[trigger] targets[i].barca@ && is_pos(lines[j].target, i),
        forall|b: int|
            0 <= b < buckets.len() ==> exists|j: int|
                0 <= j < lines.len() && lines[j].barca@ == #[trigger] buckets[b].name@,
{
    let tn = target_names(targets);
    let bn = group_names(buckets);
    assert forall|i: int| 0 <= i < targets.len() implies exists|j: int|
        0 <= j < lines.len() && lines[j].barca@ == #[trigger] targets[i].barca@ && is_pos(lines[j].target, i) by {
        assert(lines[i].barca@ == tn[i]);
    }
    assert forall|b: int| 0 <= b < buckets.len() implies exists|j: int|
        0 <= j < lines.len() && lines[j].barca@ == #[trigger] buckets[b].name@ by {
        lemma_last_position_bounds(tn, bn[b]);
        match last_position(tn, bn[b]) {
            Some(i) => {
                assert(lines[i].barca@ == tn[i]);
            },
            None => {
                let j = choose|j: int|
                    targets.len() <= j < lines.len() && #[trigger] reports_untargeted(lines, j, b);
                assert(lines[j].barca@ == bn[b]);
            },
        }
    }
}

/// The value of each asset slot, for a per-row figure `w`.
pub open spec fn slot_values(slots: Seq<AssetSlot>, w: spec_fn(int) -> int) -> spec_fn(int) -> int {
    |k: int| rows_total(slots[k].rows@, w)
}

proof fn lemma_range_total_ext(n: int, f: spec_fn(int) -> int, g: spec_fn(int) -> int)
    requires
        forall|k: int| 0 <= k < n ==> #[trigger] f(k) == g(k),
    ensures
        range_total(n, f) == range_total(n, g),
    decreases n,
{
    if n > 0 {
        lemma_range_total_ext(n - 1, f, g);
    }
}

proof fn lemma_slot_values_total(slots: Seq<AssetSlot>, w: spec_fn(int) -> int)
    ensures
        range_total(slots.len() as int, slot_values(slots, w)) == slots_total(slots, w),
    decreases slots.len(),
{
    if slots.len() > 0 {
        let rest = slots.drop_last();
        lemma_slot_values_total(rest, w);
        lemma_range_total_ext(rest.len() as int, slot_values(slots, w), slot_values(rest, w));
    }
}

/// When every ledger row has a listing, the priced rows are the whole
/// ledger: a figure summed over the asset slots is its sum over every row.
pub proof fn lemma_all_priced_total<N>(
    ledger: Seq<WalletAllocation<N>>,
    prices: Seq<Seq<char>>,
    w: spec_fn(int) -> int,
)
    requires
        forall|r: int| 0 <= r < ledger.len() ==> is_priced(ledger, prices, r),
    ensures
        priced_total(ledger, prices, ledger.len() as int, w) == range_total(ledger.len() as int, w),
{
    lemma_priced_total_prefix(ledger, prices, ledger.len() as int, w);
}

proof fn lemma_priced_total_prefix<N>(
    ledger: Seq<WalletAllocation<N>>,
    prices: Seq<Seq<char>>,
    n: int,
    w: spec_fn(int) -> int,
)
    requires
        n <= ledger.len(),
        forall|r: int| 0 <= r < ledger.len() ==> is_priced(ledger, prices, r),
    ensures
        priced_total(ledger, prices, n, w) == range_total(n, w),
    decreases n,
{
    if n > 0 {
        lemma_priced_total_prefix(ledger, prices, n - 1, w);
    }
}

/// The group values add up to the wallet total: summing each asset slot's
/// value over the groups gives the sum of the figure over the priced ledger
/// rows. The same holds of the buckets.
pub proof fn lemma_group_values_total<N>(
    ledger: Seq<WalletAllocation<N>>,
    prices: Seq<Seq<char>>,
    slots: Seq<AssetSlot>,
    groups: Seq<NameGroup>,
    w: spec_fn(int) -> int,
)
    requires
        slots_total(slots, w) == priced_total(ledger, prices, ledger.len() as int, w),
        groups_total(groups, slot_values(slots, w)) == range_total(
            slots.len() as int,
            slot_values(slots, w),
        ),
    ensures
        groups_total(groups, slot_values(slots, w)) == priced_total(
            ledger,
            prices,
            ledger.len() as int,
            w,
        ),
{
    lemma_slot_values_total(slots, w);
}

/// No two names of the list are equal.
pub open spec fn names_distinct(names: Seq<Seq<char>>) -> bool {
    forall|i: int, j: int| 0 <= i < j < names.len() ==> names[i] != names[j]
}

/// With a target table that names each bucket once (a map from bucket to
/// target) and bucket groups of distinct names, the bucket report names each
/// bucket of either side on exactly one line: line names are pairwise
/// distinct, and each is a target's bucket or a held bucket.
pub proof fn lemma_barca_report_names_distinct<T>(
    buckets: Seq<NameGroup>,
    targets: Seq<BarcaTarget<T>>,
    lines: Seq<BarcaLine>,
)
    requires
        barca_report(buckets, targets, lines),
        names_distinct(target_names(targets)),
        names_distinct(group_names(buckets)),
    ensures
        forall|j1: int, j2: int|
            0 <= j1 < j2 < lines.len() ==> #[trigger] lines[j1].barca@ != #[trigger] lines[j2].barca@,
        forall|j: int|
            0 <= j < lines.len() ==> (exists|i: int|
                0 <= i < targets.len() && targets[i].barca@ == #[trigger] lines[j].barca@) || (exists|
                b: int,
            | 0 <= b < buckets.len() && buckets[b].name@ == lines[j].barca@),
{
    let tn = target_names(targets);
    let bn = group_names(buckets);
    let n = targets.len() as int;
    assert forall|j1: int, j2: int| 0 <= j1 < j2 < lines.len() implies #[trigger] lines[j1].barca@
        != #[trigger] lines[j2].barca@ by {
        if j2 < n {
            assert(lines[j1].barca@ == tn[j1]);
            assert(lines[j2].barca@ == tn[j2]);
        } else if j1 < n {
            let b = lines[j2].actual->0 as int;
            assert(lines[j1].barca@ == tn[j1]);
            lemma_last_position_bounds(tn, bn[b]);
        } else {
            let b1 = lines[j1].actual->0 as int;
            let b2 = lines[j2].actual->0 as int;
            assert(b1 < b2);
            assert(bn[b1] != bn[b2]);
        }
    }
    assert forall|j: int| 0 <= j < lines.len() implies (exists|i: int|
        0 <= i < targets.len() && targets[i].barca@ == #[trigger] lines[j].barca@) || (exists|b: int|
        0 <= b < buckets.len() && buckets[b].name@ == lines[j].barca@) by {
        if j < n {
            assert(targets[j].barca@ == lines[j].barca@);
        } else {
            let b = lines[j].actual->0 as int;
            assert(buckets[b].name@ == lines[j].barca@);
        }
    }
}

/// Positions of the priced rows among the first `n` of a ledger, in order.
pub open spec fn priced_positions<N>(ledger: Seq<WalletAllocation<N>>, prices: Seq<Seq<char>>, n: int) -> Seq<
    int,
>
    decreases n,
{
    if n <= 0 {
        Seq::empty()
    } else if is_priced(ledger, prices, n - 1) {
        priced_positions(ledger, prices, n - 1).push(n - 1)
    } else {
        priced_positions(ledger, prices, n - 1)
    }
}

proof fn lemma_priced_positions_facts<N>(ledger: Seq<WalletAllocation<N>>, prices: Seq<Seq<char>>, n: int)
    requires
        0 <= n <= ledger.len(),
    ensures
        forall|i: int|
            0 <= i < priced_positions(ledger, prices, n).len() ==> 0 <= #[trigger] priced_positions(
                ledger,
                prices,
                n,
            )[i] < n && is_priced(ledger, prices, priced_positions(ledger, prices, n)[i]),
    decreases n,
{
    if n > 0 {
        lemma_priced_positions_facts(ledger, prices, n - 1);
        let p = priced_positions(ledger, prices, n - 1);
        let q = priced_positions(ledger, prices, n);
        assert forall|i: int| 0 <= i < q.len() implies 0 <= #[trigger] q[i] < n && is_priced(
            ledger,
            prices,
            q[i],
        ) by {
            if i < p.len() {
                assert(q[i] == p[i]);
            }
        }
    }
}

proof fn lemma_priced_total_positions<N>(
    ledger: Seq<WalletAllocation<N>>,
    prices: Seq<Seq<char>>,
    n: int,
    w: spec_fn(int) -> int,
    v: spec_fn(int) -> int,
    f: Seq<int>,
)
    requires
        0 <= n <= ledger.len(),
        f.len() >= priced_positions(ledger, prices, n).len(),
        forall|i: int| 0 <= i < priced_positions(ledger, prices, n).len() ==> f[i] == priced_positions(ledger, prices, n)[i],
        forall|i: int| 0 <= i < f.len() ==> #[trigger] v(i) == w(f[i]),
    ensures
        priced_total(ledger, prices, n, w) == range_total(priced_positions(ledger, prices, n).len() as int, v),
    decreases n,
{
    if n > 0 {
        let p = priced_positions(ledger, prices, n - 1);
        assert forall|i: int| 0 <= i < p.len() implies f[i] == p[i] by {
            assert(priced_positions(ledger, prices, n)[i] == p[i]);
        }
        lemma_priced_total_positions(ledger, prices, n - 1, w, v, f);
        if is_priced(ledger, prices, n - 1) {
            assert(priced_positions(ledger, prices, n)[p.len() as int] == n - 1);
            assert(v(p.len() as int) == w(n - 1));
        }
    }
}

/// Rows whose symbol has no listing change nothing: a figure summed over the
/// asset slots of a ledger equals, for every figure, its sum over the asset
/// slots of the ledger with those rows taken out beforehand.
pub proof fn lemma_unpriced_rows_change_nothing<N>(
    ledger: Seq<WalletAllocation<N>>,
    kept: Seq<WalletAllocation<N>>,
    prices: Seq<Seq<char>>,
    w: spec_fn(int) -> int,
)
    requires
        kept == priced_positions(ledger, prices, ledger.len() as int).map_values(
            |p: int| ledger[p],
        ),
    ensures
        forall|r: int| 0 <= r < kept.len() ==> is_priced(kept, prices, r),
        priced_total(ledger, prices, ledger.len() as int, w) == priced_total(
            kept,
            prices,
            kept.len() as int,
            |i: int| w(priced_positions(ledger, prices, ledger.len() as int)[i]),
        ),
{
    let f = priced_positions(ledger, prices, ledger.len() as int);
    let v = |i: int| w(f[i]);
    lemma_priced_positions_facts(ledger, prices, ledger.len() as int);
    assert forall|r: int| 0 <= r < kept.len() implies is_priced(kept, prices, r) by {
        assert(kept[r] == ledger[f[r]]);
    }
    lemma_priced_total_positions(ledger, prices, ledger.len() as int, w, v, f);
    lemma_priced_total_prefix(kept, prices, kept.len() as int, v);
}

} // verus!
