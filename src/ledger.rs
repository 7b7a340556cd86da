//! The wallet ledger: rows of holdings, appended and never rewritten.

use vstd::prelude::*;
use crate::engine::{groups_total, name_plan, partition_by_name, range_total, NameGroup};
use crate::text::texts;

verus! {

/// One ledger row.
///
/// `figures` carries the row's amounts (target percent, quantity, last
/// price), which the library never reads.
pub struct WalletAllocation<N> {
    pub symbol: String,
    pub group_name: Option<String>,
    pub barca: Option<String>,
    pub notes: Option<String>,
    pub figures: N,
}

/// The ledger: rows are appended, never updated nor removed.
pub struct Ledger<N> {
    rows: Vec<WalletAllocation<N>>,
}

impl<N> View for Ledger<N> {
    type V = Seq<WalletAllocation<N>>;

    closed spec fn view(&self) -> Seq<WalletAllocation<N>> {
        self.rows@
    }
}

/// The symbols of a list of ledger rows, in order.
pub open spec fn ledger_symbols<N>(rows: Seq<WalletAllocation<N>>) -> Seq<Seq<char>> {
    Seq::new(rows.len(), |i: int| rows[i].symbol@)
}

/// Position `p` is listed in `out`.
pub open spec fn lists(out: Seq<usize>, p: int) -> bool {
    exists|i: int| 0 <= i < out.len() && out[i] as int == p
}

impl<N> Ledger<N> {
    pub fn new() -> (r: Self)
        ensures
            r@ == Seq::<WalletAllocation<N>>::empty(),
    {
        Ledger { rows: Vec::new() }
    }

    pub fn len(&self) -> (r: usize)
        ensures
            r == self@.len(),
    {
        self.rows.len()
    }

    /// Appends one row.
    pub fn insert_wallet_allocation(&mut self, wa: WalletAllocation<N>)
        ensures
            final(self)@ == old(self)@.push(wa),
    {
        self.rows.push(wa);
    }

    /// Appends a batch of rows, in order, and says how many were added.
    pub fn import(&mut self, batch: Vec<WalletAllocation<N>>) -> (count: usize)
        ensures
            final(self)@ == old(self)@ + batch@,
            count == batch@.len(),
    {
        let count = batch.len();
        let mut rest = batch;
        self.rows.append(&mut rest);
        count
    }

    /// Every row, oldest first.
    pub fn rows(&self) -> (r: &Vec<WalletAllocation<N>>)
        ensures
            r@ == self@,
    {
        &self.rows
    }

    /// The current holdings: one entry per symbol, in order of first
    /// appearance, listing every row of that symbol once, oldest first, so
    /// that the caller sums the rows' amounts into the symbol's holding.
    pub fn fetch_current_wallet_allocations(&self) -> (r: Vec<NameGroup>)
        ensures
            name_plan(ledger_symbols(self@), r@),
            forall|w: spec_fn(int) -> int|
                #[trigger] groups_total(r@, w) == range_total(self@.len() as int, w),
    {
        let mut symbols: Vec<String> = Vec::new();
        let mut k: usize = 0;
        while k < self.rows.len()
            invariant
                k <= self@.len(),
                symbols@.len() == k,
                forall|i: int| 0 <= i < k ==> #[trigger] symbols@[i]@ == self@[i].symbol@,
            decreases self.rows.len() - k,
        {
            symbols.push(self.rows[k].symbol.clone());
            k = k + 1;
        }
        proof {
            assert(texts(symbols@) =~= ledger_symbols(self@));
        }
        partition_by_name(&symbols)
    }

    /// Positions of the rows of `symbol`, most recent first.
    pub fn fetch_wallet_allocation_history(&self, symbol: &String) -> (out: Vec<usize>)
        ensures
            forall|i: int|
                0 <= i < out@.len() ==> (#[trigger] out@[i] as int) < self@.len() && self@[out@[i] as int].symbol@
                    == symbol@,
            forall|p: int| 0 <= p < self@.len() && self@[p].symbol@ == symbol@ ==> #[trigger] lists(out@, p),
            forall|i: int, j: int| 0 <= i < j < out@.len() ==> out@[i] > out@[j],
    {
        let mut out: Vec<usize> = Vec::new();
        let mut p: usize = self.rows.len();
        while p > 0
            invariant
                p <= self@.len(),
                forall|i: int|
                    0 <= i < out@.len() ==> p <= (#[trigger] out@[i] as int) < self@.len()
                        && self@[out@[i] as int].symbol@ == symbol@,
                forall|x: int| p <= x < self@.len() && self@[x].symbol@ == symbol@ ==> #[trigger] lists(out@, x),
                forall|i: int, j: int| 0 <= i < j < out@.len() ==> out@[i] > out@[j],
            decreases p,
        {
            p = p - 1;
            if self.rows[p].symbol == *symbol {
                let ghost before = out@;
                out.push(p);
                proof {
                    assert forall|x: int| p <= x < self@.len() && self@[x].symbol@ == symbol@ implies #[trigger] lists(
                        out@,
                        x,
                    ) by {
                        if x == p {
                            assert(out@[out@.len() - 1] as int == x);
                        } else {
                            assert(lists(before, x));
                            let i = choose|i: int| 0 <= i < before.len() && before[i] as int == x;
                            assert(out@[i] == before[i]);
                        }
                    }
                }
            }
        }
        out
    }
}

/// The ledger is append-only: importing the same rows twice keeps both
/// copies, after everything that was there, and adds twice their count.
pub proof fn lemma_import_twice_appends<N>(rows: Seq<WalletAllocation<N>>, batch: Seq<WalletAllocation<N>>)
    ensures
        (rows + batch + batch).len() == rows.len() + 2 * batch.len(),
        (rows + batch + batch).subrange(0, rows.len() as int) == rows,
        (rows + batch + batch).subrange(rows.len() as int, (rows.len() + batch.len()) as int) == batch,
        (rows + batch + batch).subrange((rows.len() + batch.len()) as int, (rows.len() + 2 * batch.len()) as int)
            == batch,
{
    let all = rows + batch + batch;
    assert(all.subrange(0, rows.len() as int) =~= rows);
    assert(all.subrange(rows.len() as int, (rows.len() + batch.len()) as int) =~= batch);
    assert(all.subrange((rows.len() + batch.len()) as int, (rows.len() + 2 * batch.len()) as int) =~= batch);
}

} // verus!
