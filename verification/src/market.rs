//! The market: the books of all instruments, found by symbol.

use vstd::prelude::*;
use crate::stock::{Stock, StockView};
use crate::trade::Trade;

verus! {

/// What a market is, as mathematical values: the symbols in the order in
/// which they were registered, and the book of each.
pub struct MarketView {
    /// The registered symbols, first registered first.
    pub symbols: Seq<Seq<char>>,
    /// The book registered under each symbol, in the same order.
    pub books: Seq<StockView>,
}

impl MarketView {
    /// A market without instruments.
    pub open spec fn empty() -> MarketView {
        MarketView { symbols: Seq::empty(), books: Seq::empty() }
    }

    /// Each symbol has one book, and no symbol is registered twice.
    pub open spec fn well_formed(self) -> bool {
        &&& self.symbols.len() == self.books.len()
        &&& forall|k: int, l: int|
            0 <= k < l < self.symbols.len() ==> #[trigger] self.symbols[k]
                != #[trigger] self.symbols[l]
    }

    /// Whether a book is registered under `symbol`.
    pub open spec fn knows(self, symbol: Seq<char>) -> bool {
        exists|k: int| 0 <= k < self.symbols.len() && #[trigger] self.symbols[k] == symbol
    }

    /// Where `symbol` is registered, if it is.
    pub open spec fn position(self, symbol: Seq<char>) -> int {
        choose|k: int| 0 <= k < self.symbols.len() && #[trigger] self.symbols[k] == symbol
    }

    /// The book registered under `symbol`, if there is one.
    pub open spec fn book(self, symbol: Seq<char>) -> Option<StockView> {
        if self.knows(symbol) {
            Some(self.books[self.position(symbol)])
        } else {
            None
        }
    }

    /// The market with `book` registered under `symbol`: in place of the
    /// book that the symbol had, or else as the newest instrument.
    pub open spec fn with(self, symbol: Seq<char>, book: StockView) -> MarketView {
        if self.knows(symbol) {
            MarketView { books: self.books.update(self.position(symbol), book), ..self }
        } else {
            MarketView { symbols: self.symbols.push(symbol), books: self.books.push(book) }
        }
    }

    /// The market with every book of `entries` registered, first to last.
    pub open spec fn with_all(self, entries: Seq<(Seq<char>, StockView)>) -> MarketView
        decreases entries.len(),
    {
        if entries.len() == 0 {
            self
        } else {
            self.with_all(entries.drop_last()).with(entries.last().0, entries.last().1)
        }
    }

    /// The market after a matching cycle on every book.
    pub open spec fn resolved(self) -> MarketView {
        MarketView { books: self.books.map_values(|book: StockView| book.resolved()), ..self }
    }

    /// The trades that a matching cycle makes on each book, in the order of
    /// the books.
    pub open spec fn trades(self) -> Seq<(Seq<char>, Seq<Trade>)> {
        Seq::new(self.books.len(), |k: int| (self.symbols[k], self.books[k].trades()))
    }
}

/// The books of all instruments, each under its symbol.
pub struct Market {
    symbols: Vec<String>,
    stocks: Vec<Stock>,
}

/// The symbols of a market as mathematical values.
pub open spec fn symbol_views(symbols: Seq<String>) -> Seq<Seq<char>> {
    symbols.map_values(|symbol: String| symbol@)
}

/// The books of a market as mathematical values.
pub open spec fn book_views(stocks: Seq<Stock>) -> Seq<StockView> {
    stocks.map_values(|stock: Stock| stock@)
}

/// Symbols with their books as mathematical values.
pub open spec fn entry_views(entries: Seq<(String, Stock)>) -> Seq<(Seq<char>, StockView)> {
    entries.map_values(|entry: (String, Stock)| (entry.0@, entry.1@))
}

impl View for Market {
    type V = MarketView;

    closed spec fn view(&self) -> MarketView {
        MarketView { symbols: symbol_views(self.symbols@), books: book_views(self.stocks@) }
    }
}

impl Market {
    #[verifier::type_invariant]
    spec fn registered_once(self) -> bool {
        self@.well_formed()
    }

    /// Creates a market without instruments.
    pub fn new() -> (market: Market)
        ensures
            market@ == MarketView::empty(),
    {
        let market = Market { symbols: Vec::new(), stocks: Vec::new() };
        assert(market@.symbols =~= Seq::empty());
        assert(market@.books =~= Seq::empty());
        market
    }

    /// Finds where `symbol` is registered.
    fn find(&self, symbol: &str) -> (found: Option<usize>)
        ensures
            match found {
                Some(k) => self@.knows(symbol@) && k == self@.position(symbol@) && k
                    < self@.symbols.len(),
                None => !self@.knows(symbol@),
            },
            self@.symbols.len() == self@.books.len(),
    {
        proof {
            use_type_invariant(self);
        }
        let key = symbol.to_owned();
        let mut i: usize = 0;
        while i < self.symbols.len()
            invariant
                0 <= i <= self.symbols.len(),
                key@ == symbol@,
                self.registered_once(),
                forall|k: int| 0 <= k < i ==> (#[trigger] self@.symbols[k]) != symbol@,
            decreases self.symbols.len() - i,
        {
            if self.symbols[i] == key {
                assert(self@.symbols[i as int] == symbol@);
                return Some(i);
            }
            i = i + 1;
        }
        None
    }

    /// Registers `stock` under `symbol`. A book that the symbol already had
    /// is replaced; a new symbol comes last.
    pub fn add_stock(&mut self, symbol: String, stock: Stock)
        ensures
            final(self)@ == old(self)@.with(symbol@, stock@),
            final(self)@.well_formed(),
    {
        let found = self.find(symbol.as_str());
        let ghost before = self@;
        proof {
            use_type_invariant(&*self);
        }
        let mut taken = Market::new();
        core::mem::swap(self, &mut taken);
        let Market { mut symbols, mut stocks } = taken;
        match found {
            Some(k) => {
                stocks.set(k, stock);
                assert(book_views(stocks@) =~= before.books.update(k as int, stock@));
            },
            None => {
                symbols.push(symbol);
                stocks.push(stock);
                assert(symbol_views(symbols@) =~= before.symbols.push(symbol@));
                assert(book_views(stocks@) =~= before.books.push(stock@));
            },
        }
        *self = Market { symbols, stocks };
    }

    /// Registers every book of `stocks` under its symbol, first to last, each
    /// as `add_stock` does.
    pub fn extend_stocks(&mut self, stocks: Vec<(String, Stock)>)
        ensures
            final(self)@ == old(self)@.with_all(entry_views(stocks@)),
            final(self)@.well_formed(),
    {
        let ghost before = self@;
        let ghost entries = entry_views(stocks@);
        let ghost total = stocks@.len();
        proof {
            use_type_invariant(&*self);
        }
        let mut rest = stocks;
        let mut pending: Vec<(String, Stock)> = Vec::new();
        while rest.len() > 0
            invariant
                rest.len() + pending.len() == total,
                entries.len() == total,
                forall|k: int|
                    0 <= k < rest.len() ==> (#[trigger] rest@[k]).0@ == entries[k].0 && rest@[k].1@
                        == entries[k].1,
                forall|k: int|
                    0 <= k < pending.len() ==> (#[trigger] pending@[k]).0@ == entries[total - 1
                        - k].0 && pending@[k].1@ == entries[total - 1 - k].1,
            decreases rest.len(),
        {
            let ghost lower = rest@;
            let ghost upper = pending@;
            match rest.pop() {
                Some(entry) => {
                    pending.push(entry);
                    proof {
                        assert forall|k: int| 0 <= k < rest.len() implies (#[trigger] rest@[k]).0@
                            == entries[k].0 && rest@[k].1@ == entries[k].1 by {
                            assert(rest@[k] == lower[k]);
                        }
                        assert forall|k: int| 0 <= k < pending.len() implies (
                        #[trigger] pending@[k]).0@ == entries[total - 1 - k].0 && pending@[k].1@
                            == entries[total - 1 - k].1 by {
                            if k < upper.len() {
                                assert(pending@[k] == upper[k]);
                            } else {
                                assert(pending@[k] == lower[lower.len() - 1]);
                            }
                        }
                    }
                },
                None => {},
            }
        }
        assert(entries.take(0) =~= Seq::empty());
        while pending.len() > 0
            invariant
                pending.len() <= total,
                entries.len() == total,
                forall|k: int|
                    0 <= k < pending.len() ==> (#[trigger] pending@[k]).0@ == entries[total - 1
                        - k].0 && pending@[k].1@ == entries[total - 1 - k].1,
                self@ == before.with_all(entries.take(total - pending.len())),
                self@.well_formed(),
            decreases pending.len(),
        {
            let ghost upper = pending@;
            let ghost done = total - pending.len();
            match pending.pop() {
                Some(entry) => {
                    assert(entry == upper[upper.len() - 1]);
                    proof {
                        assert(entries.take(done + 1).drop_last() =~= entries.take(done));
                        assert(entries.take(done + 1).last() == entries[done]);
                        assert forall|k: int| 0 <= k < pending.len() implies (
                        #[trigger] pending@[k]).0@ == entries[total - 1 - k].0 && pending@[k].1@
                            == entries[total - 1 - k].1 by {
                            assert(pending@[k] == upper[k]);
                        }
                    }
                    self.add_stock(entry.0, entry.1);
                },
                None => {},
            }
        }
        assert(entries.take(total as int) =~= entries);
    }

    /// Runs a matching cycle on every book, in the order in which the
    /// instruments were registered, and returns the trades of each book under
    /// its symbol: one entry per book, also where no trade was made.
    pub fn resolve(&mut self) -> (executed: Vec<(String, Vec<Trade>)>)
        ensures
            final(self)@ == old(self)@.resolved(),
            final(self)@.well_formed(),
            executed@.len() == old(self)@.books.len(),
            forall|k: int|
                0 <= k < executed@.len() ==> (#[trigger] executed@[k]).0@ == old(self)@.symbols[k]
                    && executed@[k].1@ == old(self)@.books[k].trades(),
    {
        let mut executed: Vec<(String, Vec<Trade>)> = Vec::new();
        let ghost before = self@;
        proof {
            use_type_invariant(&*self);
        }
        let mut taken = Market::new();
        core::mem::swap(self, &mut taken);
        let Market { mut symbols, mut stocks } = taken;
        let mut i: usize = 0;
        while i < stocks.len()
            invariant
                0 <= i <= stocks.len(),
                stocks.len() == before.books.len(),
                symbol_views(symbols@) == before.symbols,
                before.well_formed(),
                executed@.len() == i,
                forall|k: int|
                    0 <= k < i ==> (#[trigger] executed@[k]).0@ == before.symbols[k]
                        && executed@[k].1@ == before.books[k].trades(),
                forall|k: int|
                    0 <= k < i ==> (#[trigger] book_views(stocks@)[k]) == before.books[k].resolved(),
                forall|k: int|
                    i <= k < stocks.len() ==> (#[trigger] book_views(stocks@)[k]) == before.books[k],
            decreases stocks.len() - i,
        {
            let ghost books = book_views(stocks@);
            assert(books[i as int] == before.books[i as int]);
            assert(books[i as int] == stocks[i as int]@);
            let trades = stocks[i].resolve();
            let symbol = symbols[i].clone();
            assert(symbol@ == before.symbols[i as int]);
            executed.push((symbol, trades));
            proof {
                assert forall|k: int| 0 <= k < i + 1 implies (#[trigger] book_views(stocks@)[k])
                    == before.books[k].resolved() by {
                    if k < i {
                        assert(books[k] == before.books[k].resolved());
                    }
                }
                assert forall|k: int| i + 1 <= k < stocks.len() implies (#[trigger] book_views(
                    stocks@,
                )[k]) == before.books[k] by {
                    assert(books[k] == before.books[k]);
                }
            }
            i = i + 1;
        }
        assert(book_views(stocks@) =~= before.resolved().books);
        *self = Market { symbols, stocks };
        executed
    }

    /// Returns the book registered under `symbol`, if there is one.
    pub fn get_stock(&self, symbol: &str) -> (found: Option<&Stock>)
        ensures
            match found {
                Some(stock) => self@.book(symbol@) == Some(stock@),
                None => self@.book(symbol@) is None,
            },
    {
        match self.find(symbol) {
            Some(k) => Some(&self.stocks[k]),
            None => None,
        }
    }

    /// Returns the book registered under `symbol` for changing, if there is
    /// one. What the caller makes of the book is then the book under that
    /// symbol; nothing else changes.
    pub fn get_stock_mut(&mut self, symbol: &str) -> (found: Option<&mut Stock>)
        ensures
            match found {
                Some(stock) => old(self)@.book(symbol@) == Some(stock@) && final(self)@
                    == old(self)@.with(symbol@, final(stock)@),
                None => old(self)@.book(symbol@) is None && final(self)@ == old(self)@,
            },
    {
        let found = self.find(symbol);
        proof {
            use_type_invariant(&*self);
        }
        let ghost before = self@;
        match found {
            Some(k) => {
                assert(before.books[k as int] == self.stocks[k as int]@);
                let stock = &mut self.stocks[k];
                proof {
                    assert(book_views(after_borrow(self.stocks)@) =~= before.books.update(
                        k as int,
                        final(stock)@,
                    ));
                }
                Some(stock)
            },
            None => None,
        }
    }
}

} // verus!
