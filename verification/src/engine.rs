//! The decisions of the engine: what a query does to the market and which
//! response it earns, and who is told of the trades of a tick.
//!
//! The engine serves queries between ticks and runs one matching cycle per
//! tick, so an order never trades in the tick in which it was posted.

use vstd::prelude::*;
use std::collections::HashMap;
use crate::depth::depth;
use crate::market::{Market, MarketView};
use crate::query::{Query, QueryResponse, QueryView, ResponseView};
use crate::queue::place;
use crate::stock::StockView;
use crate::trade::Trade;

verus! {

broadcast use vstd::std_specs::hash::group_hash_axioms;

/// Milliseconds between two ticks of the engine.
pub const TICK_INTERVAL_MILLISECS: u64 = 10;

/// The market after a query, whatever the connection.
pub open spec fn market_after<S>(market: MarketView, query: QueryView<S>) -> MarketView {
    match query {
        QueryView::Buy(symbol, order) => match market.book(symbol) {
            Some(book) => market.with(
                symbol,
                StockView { buys: place(book.buys, order, true), ..book },
            ),
            None => market,
        },
        QueryView::Sell(symbol, order) => match market.book(symbol) {
            Some(book) => market.with(
                symbol,
                StockView { sells: place(book.sells, order, false), ..book },
            ),
            None => market,
        },
        _ => market,
    }
}

/// What a book answers to a query that names it.
pub open spec fn book_response<S>(book: StockView, query: QueryView<S>) -> ResponseView {
    match query {
        QueryView::Buy(_, _) => ResponseView::OrderPosted,
        QueryView::Sell(_, _) => ResponseView::OrderPosted,
        QueryView::Ohlc(_) => ResponseView::Ohlc(
            book.ohlc.open,
            book.ohlc.high,
            book.ohlc.low,
            book.ohlc.close,
        ),
        QueryView::BuyOrders(_) => ResponseView::QueriedOrders(depth(book.buys)),
        QueryView::SellOrders(_) => ResponseView::QueriedOrders(depth(book.sells)),
        QueryView::Connect(_) => ResponseView::Connected,
    }
}

/// The symbol that a query names, if it names one.
pub open spec fn symbol_of<S>(query: QueryView<S>) -> Option<Seq<char>> {
    match query {
        QueryView::Buy(symbol, _) => Some(symbol),
        QueryView::Sell(symbol, _) => Some(symbol),
        QueryView::Ohlc(symbol) => Some(symbol),
        QueryView::BuyOrders(symbol) => Some(symbol),
        QueryView::SellOrders(symbol) => Some(symbol),
        QueryView::Connect(_) => None,
    }
}

/// The response that a query earns from the market.
pub open spec fn response_to<S>(market: MarketView, query: QueryView<S>) -> ResponseView {
    match symbol_of(query) {
        Some(symbol) => match market.book(symbol) {
            Some(book) => book_response(book, query),
            None => ResponseView::SymbolNotFound,
        },
        None => ResponseView::Connected,
    }
}

/// Serves one query of connection `id`.
///
/// A `Connect` registers the sink under `id`, in place of any sink that the
/// id had, and earns `Connected`. Any other query of an id that is not
/// registered is dropped: nothing changes and there is no response. A query
/// of a registered id is applied to the market and earns its response, which
/// is for the sink registered under `id`.
pub fn resolve_query<S>(
    id: usize,
    query: Query<S>,
    connections: &mut HashMap<usize, S>,
    market: &mut Market,
) -> (response: Option<QueryResponse>)
    ensures
        final(connections)@ == match query@ {
            QueryView::Connect(sink) => old(connections)@.insert(id, sink),
            _ => old(connections)@,
        },
        query@ is Connect || old(connections)@.contains_key(id) ==> {
            &&& final(market)@ == market_after(old(market)@, query@)
            &&& response is Some
            &&& response->0@ == response_to(old(market)@, query@)
        },
        !(query@ is Connect) && !old(connections)@.contains_key(id) ==> {
            &&& final(market)@ == old(market)@
            &&& response is None
        },
{
    match query {
        Query::Connect(sink) => {
            connections.insert(id, sink);
            Some(QueryResponse::Connected)
        },
        Query::Buy(symbol, order) => {
            if !connections.contains_key(&id) {
                return None;
            }
            match market.get_stock_mut(symbol.as_str()) {
                Some(stock) => {
                    stock.add_buy_order(order);
                    Some(QueryResponse::OrderPosted)
                },
                None => Some(QueryResponse::SymbolNotFound),
            }
        },
        Query::Sell(symbol, order) => {
            if !connections.contains_key(&id) {
                return None;
            }
            match market.get_stock_mut(symbol.as_str()) {
                Some(stock) => {
                    stock.add_sell_order(order);
                    Some(QueryResponse::OrderPosted)
                },
                None => Some(QueryResponse::SymbolNotFound),
            }
        },
        Query::Ohlc(symbol) => {
            if !connections.contains_key(&id) {
                return None;
            }
            match market.get_stock(symbol.as_str()) {
                Some(stock) => {
                    let (open, high, low, close) = stock.get_ohlc();
                    Some(QueryResponse::Ohlc(open, high, low, close))
                },
                None => Some(QueryResponse::SymbolNotFound),
            }
        },
        Query::BuyOrders(symbol) => {
            if !connections.contains_key(&id) {
                return None;
            }
            match market.get_stock(symbol.as_str()) {
                Some(stock) => Some(QueryResponse::QueriedOrders(stock.get_buy_orders())),
                None => Some(QueryResponse::SymbolNotFound),
            }
        },
        Query::SellOrders(symbol) => {
            if !connections.contains_key(&id) {
                return None;
            }
            match market.get_stock(symbol.as_str()) {
                Some(stock) => Some(QueryResponse::QueriedOrders(stock.get_sell_orders())),
                None => Some(QueryResponse::SymbolNotFound),
            }
        },
    }
}

/// The side of a trade that a notice is for.
#[derive(Clone, Copy, Debug, PartialEq, Eq, Structural)]
pub enum Party {
    /// The connection whose buy order traded.
    Buyer,
    /// The connection whose sell order traded.
    Seller,
}

/// One party of a trade that is to be told of it.
#[derive(Clone, Copy, Debug, PartialEq, Eq, Structural)]
pub struct Notice {
    /// The side of the trade that the recipient took.
    pub party: Party,
    /// The connection to tell.
    pub recipient: usize,
    /// Whether that connection is registered. One that is not has gone; the
    /// notice is then to be skipped.
    pub registered: bool,
    /// The trade to tell of.
    pub trade: Trade,
}

/// The notices of one trade: the buyer's, then the seller's.
pub open spec fn notices_of(trade: Trade, registered: Set<usize>) -> Seq<Notice> {
    seq![
        Notice {
            party: Party::Buyer,
            recipient: trade.buyer_id,
            registered: registered.contains(trade.buyer_id),
            trade,
        },
        Notice {
            party: Party::Seller,
            recipient: trade.seller_id,
            registered: registered.contains(trade.seller_id),
            trade,
        },
    ]
}

/// The notices of the trades of one book, in the order of the trades.
pub open spec fn notices_of_trades(trades: Seq<Trade>, registered: Set<usize>) -> Seq<Notice>
    decreases trades.len(),
{
    if trades.len() == 0 {
        Seq::empty()
    } else {
        notices_of_trades(trades.drop_last(), registered) + notices_of(trades.last(), registered)
    }
}

/// The notices of the trades of all books, in the order of the books.
pub open spec fn notices_of_books(books: Seq<Seq<Trade>>, registered: Set<usize>) -> Seq<Notice>
    decreases books.len(),
{
    if books.len() == 0 {
        Seq::empty()
    } else {
        notices_of_books(books.drop_last(), registered) + notices_of_trades(
            books.last(),
            registered,
        )
    }
}

/// The trades of each book, without the symbols.
pub open spec fn trade_lists(executed: Seq<(String, Vec<Trade>)>) -> Seq<Seq<Trade>> {
    executed.map_values(|book: (String, Vec<Trade>)| book.1@)
}

/// Lists who is to be told of the trades of a tick: for each trade its
/// buyer and then its seller, the trades in the order in which they were
/// made. A party that is not registered is listed as such, so that it can be
/// skipped.
pub fn trade_notices<S>(
    executed: &Vec<(String, Vec<Trade>)>,
    connections: &HashMap<usize, S>,
) -> (notices: Vec<Notice>)
    ensures
        notices@ == notices_of_books(trade_lists(executed@), connections@.dom()),
{
    let mut notices: Vec<Notice> = Vec::new();
    let ghost books = trade_lists(executed@);
    let ghost registered = connections@.dom();
    let mut b: usize = 0;
    assert(books.take(0) =~= Seq::empty());
    while b < executed.len()
        invariant
            0 <= b <= executed.len(),
            books == trade_lists(executed@),
            registered == connections@.dom(),
            notices@ == notices_of_books(books.take(b as int), registered),
        decreases executed.len() - b,
    {
        let trades = &executed[b].1;
        let ghost before = notices@;
        let mut t: usize = 0;
        assert(trades@.take(0) =~= Seq::empty());
        assert(notices@ =~= before + notices_of_trades(trades@.take(0), registered));
        while t < trades.len()
            invariant
                0 <= t <= trades.len(),
                registered == connections@.dom(),
                notices@ == before + notices_of_trades(trades@.take(t as int), registered),
            decreases trades.len() - t,
        {
            let trade = trades[t];
            let buyer = Notice {
                party: Party::Buyer,
                recipient: trade.buyer_id,
                registered: connections.contains_key(&trade.buyer_id),
                trade,
            };
            let seller = Notice {
                party: Party::Seller,
                recipient: trade.seller_id,
                registered: connections.contains_key(&trade.seller_id),
                trade,
            };
            notices.push(buyer);
            notices.push(seller);
            proof {
                let upto = trades@.take(t + 1);
                assert(upto.drop_last() =~= trades@.take(t as int));
                assert(upto.last() == trade);
                assert(notices@ =~= before + notices_of_trades(upto, registered));
            }
            t = t + 1;
        }
        proof {
            assert(trades@.take(t as int) =~= trades@);
            let upto = books.take(b + 1);
            assert(upto.drop_last() =~= books.take(b as int));
            assert(upto.last() == trades@);
        }
        b = b + 1;
    }
    assert(books.take(b as int) =~= books);
    notices
}

/// The trades of a market's books, without the symbols.
pub open spec fn market_trades(market: MarketView) -> Seq<Seq<Trade>> {
    market.books.map_values(|book: StockView| book.trades())
}

/// Runs one tick: a matching cycle on every book, and the list of who is
/// to be told of its trades. Returns the trades of each book under its
/// symbol, and the notices in the order in which they are to be sent.
pub fn tick<S>(market: &mut Market, connections: &HashMap<usize, S>) -> (outcome: (
    Vec<(String, Vec<Trade>)>,
    Vec<Notice>,
))
    ensures
        final(market)@ == old(market)@.resolved(),
        outcome.0@.len() == old(market)@.books.len(),
        forall|k: int|
            0 <= k < outcome.0@.len() ==> (#[trigger] outcome.0@[k]).0@ == old(market)@.symbols[k]
                && outcome.0@[k].1@ == old(market)@.books[k].trades(),
        outcome.1@ == notices_of_books(market_trades(old(market)@), connections@.dom()),
{
    let executed = market.resolve();
    let notices = trade_notices(&executed, connections);
    assert(trade_lists(executed@) =~= market_trades(old(market)@));
    (executed, notices)
}

} // verus!
