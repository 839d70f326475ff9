//! The book of latest quotes, one per symbol.

use vstd::prelude::*;
use crate::keyed::{Keyed, KeyedList};
use crate::quotes::QuoteData;

verus! {

impl Keyed for QuoteData {
    open spec fn key(&self) -> Seq<char> {
        self.symbol@
    }

    fn key_text(&self) -> (r: &String) {
        &self.symbol
    }
}

/// The book after recording `quotes` in order, starting from `book`.
pub open spec fn book_after(book: Map<Seq<char>, QuoteData>, quotes: Seq<QuoteData>) -> Map<Seq<char>, QuoteData>
    decreases quotes.len(),
{
    if quotes.len() == 0 {
        book
    } else {
        book_after(book, quotes.drop_last()).insert(quotes.last().symbol@, quotes.last())
    }
}

/// The latest quote of each symbol.
#[derive(Debug)]
pub struct QuoteBook {
    pub quotes: KeyedList<QuoteData>,
}

impl View for QuoteBook {
    type V = Map<Seq<char>, QuoteData>;

    open spec fn view(&self) -> Map<Seq<char>, QuoteData> {
        self.quotes@
    }
}

impl QuoteBook {
    /// No quote yet.
    pub fn new() -> (r: QuoteBook)
        ensures
            r@ == Map::<Seq<char>, QuoteData>::empty(),
    {
        QuoteBook { quotes: KeyedList::new() }
    }

    /// Records `quote` as the latest quote of its symbol.
    pub fn insert(&mut self, quote: QuoteData)
        ensures
            final(self)@ == old(self)@.insert(quote.symbol@, quote),
    {
        self.quotes.insert(quote);
    }

    /// Records `quotes` one after the other, each as the latest quote of its
    /// symbol.
    pub fn record_all(&mut self, quotes: Vec<QuoteData>)
        ensures
            final(self)@ == book_after(old(self)@, quotes@),
    {
        let ghost start = self@;
        let ghost all = quotes@;
        let mut rest = quotes;
        let total = rest.len();
        let mut n: usize = 0;
        while rest.len() > 0
            invariant
                n + rest@.len() == all.len(),
                all.len() == total,
                rest@ == all.skip(n as int),
                self@ == book_after(start, all.take(n as int)),
            decreases rest@.len(),
        {
            let q = rest.remove(0);
            proof {
                assert(q == all[n as int]);
                assert(all.take(n + 1).drop_last() =~= all.take(n as int));
            }
            self.insert(q);
            n = n + 1;
        }
        proof {
            assert(all.take(n as int) =~= all);
        }
    }

    /// The latest quote of `symbol`.
    pub fn get(&self, symbol: &String) -> (r: Option<&QuoteData>)
        ensures
            r matches Some(q) ==> self@.contains_key(symbol@) && self@[symbol@] == *q,
            r is None ==> !self@.contains_key(symbol@),
    {
        self.quotes.get(symbol)
    }
}

} // verus!
