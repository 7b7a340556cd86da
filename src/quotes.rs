//! Market quotes and the symbol index the aggregation joins against.

use vstd::prelude::*;
use crate::text::{last_position, position_of, texts};

verus! {

/// One listing of the market-data provider.
///
/// `quote` carries the market figures of the listing (price, volume, changes,
/// capitalisation); the library never reads them, it only refers to a listing
/// by its position.
pub struct CryptoData<P> {
    pub id: u32,
    pub name: String,
    pub symbol: String,
    pub cmc_rank: u32,
    pub quote: P,
}

/// Status block of a provider response.
pub struct ApiStatus {
    pub timestamp: String,
    pub error_code: i32,
    pub error_message: Option<String>,
    pub credit_count: i32,
    pub notice: Option<String>,
}

/// A provider that answers with a fixed list of listings.
pub struct MockCryptoProvider<P> {
    pub data: Vec<CryptoData<P>>,
}

impl<P> MockCryptoProvider<P> {
    pub fn new(data: Vec<CryptoData<P>>) -> (r: Self)
        ensures
            r.data@ == data@,
    {
        MockCryptoProvider { data }
    }
}

/// The symbols of a list of listings, in order.
pub open spec fn symbols_of<P>(quotes: Seq<CryptoData<P>>) -> Seq<Seq<char>> {
    Seq::new(quotes.len(), |i: int| quotes[i].symbol@)
}


/// Lookup from symbol to the position of its latest listing.
pub struct PriceIndex {
    symbols: Vec<String>,
}

impl View for PriceIndex {
    type V = Seq<Seq<char>>;

    closed spec fn view(&self) -> Seq<Seq<char>> {
        texts(self.symbols@)
    }
}

impl PriceIndex {
    /// Position of the latest listing of `symbol`.
    pub fn lookup(&self, symbol: &String) -> (r: Option<usize>)
        ensures
            match r {
                Some(i) => last_position(self@, symbol@) == Some(i as int),
                None => last_position(self@, symbol@) is None,
            },
    {
        position_of(&self.symbols, symbol)
    }
}

/// Indexes listings by symbol; the last listing of a symbol wins.
pub fn build_index<P>(quotes: &Vec<CryptoData<P>>) -> (r: PriceIndex)
    ensures
        r@ == symbols_of(quotes@),
{
    let mut symbols: Vec<String> = Vec::new();
    let mut i: usize = 0;
    while i < quotes.len()
        invariant
            i <= quotes.len(),
            symbols@.len() == i,
            forall|k: int| 0 <= k < i ==> #[trigger] symbols@[k]@ == quotes@[k].symbol@,
        decreases quotes.len() - i,
    {
        symbols.push(quotes[i].symbol.clone());
        i = i + 1;
    }
    proof {
        assert(texts(symbols@) =~= symbols_of(quotes@));
    }
    PriceIndex { symbols }
}

} // verus!
