//! The requests that clients make and the responses that the engine gives.

use vstd::prelude::*;
use vstd::string::StringExecFns;
use crate::depth::level_views;
use crate::ohlc::price_view;
use crate::order::{Clock, Order, OrderView, Timestamp};
use crate::price::{parse_price, price_of_text};
use crate::text::{decimal, price_text, write_decimal, write_price};
use crate::trade::Trade;

verus! {

/// A query to the market. `S` is the sink on which a connection takes its
/// responses; the market only keeps it.
#[derive(Clone, Debug)]
pub enum Query<S> {
    /// Post a buy order for the instrument.
    Buy(String, Order),
    /// Post a sell order for the instrument.
    Sell(String, Order),
    /// Query the open, high, low and close prices of the instrument.
    Ohlc(String),
    /// Query the depth of the instrument's buy queue.
    BuyOrders(String),
    /// Query the depth of the instrument's sell queue.
    SellOrders(String),
    /// Announce a new connection with the sink for its responses.
    Connect(S),
}

/// What a query is, as mathematical values.
pub enum QueryView<S> {
    /// Post a buy order for the instrument.
    Buy(Seq<char>, OrderView),
    /// Post a sell order for the instrument.
    Sell(Seq<char>, OrderView),
    /// Query the open, high, low and close prices of the instrument.
    Ohlc(Seq<char>),
    /// Query the depth of the instrument's buy queue.
    BuyOrders(Seq<char>),
    /// Query the depth of the instrument's sell queue.
    SellOrders(Seq<char>),
    /// Announce a new connection with the sink for its responses.
    Connect(S),
}

impl<S> View for Query<S> {
    type V = QueryView<S>;

    open spec fn view(&self) -> QueryView<S> {
        match *self {
            Query::Buy(symbol, order) => QueryView::Buy(symbol@, order@),
            Query::Sell(symbol, order) => QueryView::Sell(symbol@, order@),
            Query::Ohlc(symbol) => QueryView::Ohlc(symbol@),
            Query::BuyOrders(symbol) => QueryView::BuyOrders(symbol@),
            Query::SellOrders(symbol) => QueryView::SellOrders(symbol@),
            Query::Connect(sink) => QueryView::Connect(sink),
        }
    }
}

/// The text of the string member `key` of the JSON object that `json`
/// writes, as `serde_json` reads it; nothing where `json` is no JSON document
/// or no object, or the object has no such member or one that is no string.
pub uninterp spec fn json_string_member(json: Seq<char>, key: Seq<char>) -> Option<Seq<char>>;

/// The number member `key` of the JSON object that `json` writes, in the
/// decimal notation in which `serde_json` prints it; nothing where there is
/// no such member or it is no number.
pub uninterp spec fn json_number_member(json: Seq<char>, key: Seq<char>) -> Option<Seq<char>>;

/// The number member `key` of the JSON object that `json` writes, where
/// `serde_json` reads it as an unsigned integer of 64 bits; nothing where
/// there is no such member or it is no such number.
pub uninterp spec fn json_count_member(json: Seq<char>, key: Seq<char>) -> Option<u64>;

/// Trusted: `serde_json::from_str` into a `serde_json::Value`, indexed by
/// `key`, read with `Value::as_str`.
///
/// The contract only names the result: the same text and key always give the
/// same member. Text that does not parse gives nothing.
#[verifier::external_body]
fn string_member(json: &str, key: &str) -> (member: Option<String>)
    ensures
        match member {
            Some(text) => json_string_member(json@, key@) == Some(text@),
            None => json_string_member(json@, key@) is None,
        },
{
    let document: serde_json::Value = serde_json::from_str(json).ok()?;
    document[key].as_str().map(str::to_owned)
}

/// Trusted: `serde_json::from_str` into a `serde_json::Value`, indexed by
/// `key`, read with `Value::as_number` and printed with the `Display` of
/// `serde_json::Number`.
///
/// The contract only names the result: the same text and key always give the
/// same member. Text that does not parse gives nothing.
#[verifier::external_body]
fn number_member(json: &str, key: &str) -> (member: Option<String>)
    ensures
        match member {
            Some(text) => json_number_member(json@, key@) == Some(text@),
            None => json_number_member(json@, key@) is None,
        },
{
    let document: serde_json::Value = serde_json::from_str(json).ok()?;
    document[key].as_number().map(ToString::to_string)
}

/// Trusted: `serde_json::from_str` into a `serde_json::Value`, indexed by
/// `key`, read with `Value::as_u64`.
///
/// The contract only names the result: the same text and key always give the
/// same member. Text that does not parse gives nothing.
#[verifier::external_body]
fn count_member(json: &str, key: &str) -> (member: Option<u64>)
    ensures
        member == json_count_member(json@, key@),
{
    let document: serde_json::Value = serde_json::from_str(json).ok()?;
    document[key].as_u64()
}

/// The order that a request of connection `id` posts.
pub open spec fn posted_order(id: usize, price: usize, quantity: u64, time: Timestamp) -> OrderView {
    OrderView {
        creator_id: id as nat,
        price: price as nat,
        quantity: (quantity as usize) as nat,
        time,
    }
}

/// The query that the members of a request make, for connection `id` at
/// `time`. A request needs a type and a symbol, and a price and a quantity
/// where it posts an order; one that lacks a member it needs, or has a type
/// that is none of the five, makes no query.
pub open spec fn decoded<S>(
    id: usize,
    kind: Option<Seq<char>>,
    symbol: Option<Seq<char>>,
    price: Option<usize>,
    quantity: Option<u64>,
    time: Timestamp,
) -> Option<QueryView<S>> {
    if kind is None || symbol is None {
        None
    } else if kind->0 == "buy"@ {
        if price is Some && quantity is Some {
            Some(QueryView::Buy(symbol->0, posted_order(id, price->0, quantity->0, time)))
        } else {
            None
        }
    } else if kind->0 == "sell"@ {
        if price is Some && quantity is Some {
            Some(QueryView::Sell(symbol->0, posted_order(id, price->0, quantity->0, time)))
        } else {
            None
        }
    } else if kind->0 == "ohlc"@ {
        Some(QueryView::Ohlc(symbol->0))
    } else if kind->0 == "buy_orders"@ {
        Some(QueryView::BuyOrders(symbol->0))
    } else if kind->0 == "sell_orders"@ {
        Some(QueryView::SellOrders(symbol->0))
    } else {
        None
    }
}

/// The price that a request's price member writes, where it has one.
pub open spec fn member_price(price: Option<Seq<char>>) -> Option<usize> {
    match price {
        Some(text) => price_of_text(text),
        None => None,
    }
}

/// What an optional text is, as a mathematical value.
pub open spec fn text_view(text: Option<String>) -> Option<Seq<char>> {
    match text {
        Some(t) => Some(t@),
        None => None,
    }
}

/// What an optional query is, as a mathematical value.
pub open spec fn query_view<S>(query: Option<Query<S>>) -> Option<QueryView<S>> {
    match query {
        Some(q) => Some(q@),
        None => None,
    }
}

/// Whether the members of a request make a query that posts an order: the
/// type is `buy` or `sell`, and symbol, price and quantity are there.
pub open spec fn posts_order(
    kind: Option<Seq<char>>,
    symbol: Option<Seq<char>>,
    price: Option<usize>,
    quantity: Option<u64>,
) -> bool {
    &&& kind is Some
    &&& symbol is Some
    &&& kind->0 == "buy"@ || kind->0 == "sell"@
    &&& price is Some
    &&& quantity is Some
}

/// Whether a request of this type posts an order.
fn is_order_kind(kind: &Option<String>) -> (posts: bool)
    ensures
        posts == (kind is Some && (kind->0@ == "buy"@ || kind->0@ == "sell"@)),
{
    match kind {
        Some(kind) => *kind == "buy".to_owned() || *kind == "sell".to_owned(),
        None => false,
    }
}

impl<S> Query<S> {
    /// Makes the query from the members of a request, the price already
    /// read.
    fn assemble(
        id: usize,
        kind: Option<String>,
        symbol: Option<String>,
        price: Option<usize>,
        quantity: Option<u64>,
        time: Timestamp,
    ) -> (query: Option<Query<S>>)
        ensures
            query_view(query) == decoded::<S>(
                id,
                text_view(kind),
                text_view(symbol),
                price,
                quantity,
                time,
            ),
    {
        let kind = match kind {
            Some(kind) => kind,
            None => {
                return None;
            },
        };
        let symbol = match symbol {
            Some(symbol) => symbol,
            None => {
                return None;
            },
        };
        if kind == "buy".to_owned() || kind == "sell".to_owned() {
            let order = match (price, quantity) {
                (Some(price), Some(quantity)) => Order::with_time(
                    id,
                    price,
                    #[verifier::truncate]
                    (quantity as usize),
                    time,
                ),
                _ => {
                    return None;
                },
            };
            if kind == "buy".to_owned() {
                Some(Query::Buy(symbol, order))
            } else {
                Some(Query::Sell(symbol, order))
            }
        } else if kind == "ohlc".to_owned() {
            Some(Query::Ohlc(symbol))
        } else if kind == "buy_orders".to_owned() {
            Some(Query::BuyOrders(symbol))
        } else if kind == "sell_orders".to_owned() {
            Some(Query::SellOrders(symbol))
        } else {
            None
        }
    }

    /// Makes the query of connection `id` from the members of a request: its
    /// type, its symbol, its price in decimal notation and its quantity. An
    /// order that the query posts is submitted at `time`.
    pub fn from_members(
        id: usize,
        kind: Option<String>,
        symbol: Option<String>,
        price: Option<String>,
        quantity: Option<u64>,
        time: Timestamp,
    ) -> (query: Option<Query<S>>)
        ensures
            query_view(query) == decoded::<S>(
                id,
                text_view(kind),
                text_view(symbol),
                member_price(text_view(price)),
                quantity,
                time,
            ),
    {
        let price = match price {
            Some(text) => parse_price(text.as_str()),
            None => None,
        };
        Query::assemble(id, kind, symbol, price, quantity, time)
    }

    /// Reads the query of connection `id` from a request, a JSON object with
    /// the members `type`, `symbol` and, for an order, `price` and
    /// `quantity`.
    ///
    /// An order that the query posts is submitted now: `clock` is read, and
    /// the order's time is the instant at which the clock then stands. A
    /// request that posts no order leaves the clock as it is.
    pub fn from_json(json: &str, id: usize, clock: &mut Clock) -> (query: Option<Query<S>>)
        ensures
            query_view(query) == decoded::<S>(
                id,
                json_string_member(json@, "type"@),
                json_string_member(json@, "symbol"@),
                member_price(json_number_member(json@, "price"@)),
                json_count_member(json@, "quantity"@),
                final(clock)@,
            ),
            posts_order(
                json_string_member(json@, "type"@),
                json_string_member(json@, "symbol"@),
                member_price(json_number_member(json@, "price"@)),
                json_count_member(json@, "quantity"@),
            ) ==> !final(clock)@.before(old(clock)@),
            !posts_order(
                json_string_member(json@, "type"@),
                json_string_member(json@, "symbol"@),
                member_price(json_number_member(json@, "price"@)),
                json_count_member(json@, "quantity"@),
            ) ==> final(clock)@ == old(clock)@,
            final(clock)@.since_epoch(),
    {
        let kind = string_member(json, "type");
        let symbol = string_member(json, "symbol");
        let price = match number_member(json, "price") {
            Some(text) => parse_price(text.as_str()),
            None => None,
        };
        let quantity = count_member(json, "quantity");
        let time = if is_order_kind(&kind) && symbol.is_some() && price.is_some()
            && quantity.is_some() {
            clock.now()
        } else {
            clock.last()
        };
        Query::assemble(id, kind, symbol, price, quantity, time)
    }
}

/// A response from the market.
#[derive(Clone, Debug, PartialEq, Eq)]
pub enum QueryResponse {
    /// The connection is registered.
    Connected,
    /// The order was posted.
    OrderPosted,
    /// The depth of a queue: a limited number of price levels from the best
    /// on, each as its price in hundredths and the quantity resting at it.
    QueriedOrders(Vec<(usize, u128)>),
    /// The open, high, low and close prices of an instrument, in hundredths.
    Ohlc(Option<usize>, Option<usize>, Option<usize>, Option<usize>),
    /// Receipt of a completed trade.
    ExecutedTrade(Trade),
    /// No instrument has the symbol that the query named.
    SymbolNotFound,
}

/// What a response is, as mathematical values.
pub enum ResponseView {
    /// The connection is registered.
    Connected,
    /// The order was posted.
    OrderPosted,
    /// The depth of a queue.
    QueriedOrders(Seq<(nat, nat)>),
    /// The open, high, low and close prices of an instrument.
    Ohlc(Option<nat>, Option<nat>, Option<nat>, Option<nat>),
    /// Receipt of a completed trade.
    ExecutedTrade(Trade),
    /// No instrument has the symbol that the query named.
    SymbolNotFound,
}

impl View for QueryResponse {
    type V = ResponseView;

    open spec fn view(&self) -> ResponseView {
        match *self {
            QueryResponse::Connected => ResponseView::Connected,
            QueryResponse::OrderPosted => ResponseView::OrderPosted,
            QueryResponse::QueriedOrders(levels) => ResponseView::QueriedOrders(
                level_views(levels@),
            ),
            QueryResponse::Ohlc(open, high, low, close) => ResponseView::Ohlc(
                price_view(open),
                price_view(high),
                price_view(low),
                price_view(close),
            ),
            QueryResponse::ExecutedTrade(trade) => ResponseView::ExecutedTrade(trade),
            QueryResponse::SymbolNotFound => ResponseView::SymbolNotFound,
        }
    }
}

/// A price that may be unset, as JSON: the price, or `null`.
pub open spec fn optional_price_text(price: Option<nat>) -> Seq<char> {
    match price {
        Some(p) => price_text(p),
        None => "null"@,
    }
}

/// One price level as a JSON object.
pub open spec fn level_text(level: (nat, nat)) -> Seq<char> {
    "{\"price\": "@ + price_text(level.0) + ", \"quantity\": "@ + decimal(level.1) + "}"@
}

/// Price levels as the members of a JSON array, separated by commas.
pub open spec fn levels_text(levels: Seq<(nat, nat)>) -> Seq<char>
    decreases levels.len(),
{
    if levels.len() == 0 {
        Seq::empty()
    } else if levels.len() == 1 {
        level_text(levels[0])
    } else {
        levels_text(levels.drop_last()) + ","@ + level_text(levels.last())
    }
}

impl ResponseView {
    /// The response as one JSON object.
    pub open spec fn json(self) -> Seq<char> {
        match self {
            ResponseView::Connected => "{\"response\": \"connected\"}"@,
            ResponseView::OrderPosted => "{\"response\": \"order_posted\"}"@,
            ResponseView::QueriedOrders(levels) => "{\"response\": \"queried_orders\", \"orders\": ["@
                + levels_text(levels) + "]}"@,
            ResponseView::Ohlc(open, high, low, close) => "{\"response\": \"ohlc\", \"open\": "@
                + optional_price_text(open) + ", \"high\": "@ + optional_price_text(high)
                + ", \"low\": "@ + optional_price_text(low) + ", \"close\": "@
                + optional_price_text(close) + "}"@,
            ResponseView::ExecutedTrade(trade) => "{\"response\": \"executed_trade\", \"buyer_id\": "@
                + decimal(trade.buyer_id as nat) + ", \"seller_id\": "@ + decimal(
                trade.seller_id as nat,
            ) + ", \"price\": "@ + price_text(trade.price as nat) + ", \"quantity\": "@ + decimal(
                trade.quantity as nat,
            ) + "}"@,
            ResponseView::SymbolNotFound => "{\"response\": \"symbol_not_found\"}"@,
        }
    }
}

/// Appends a price that may be unset to `out`.
fn write_optional_price(out: &mut String, price: Option<usize>)
    ensures
        final(out)@ == old(out)@ + optional_price_text(price_view(price)),
{
    match price {
        Some(p) => write_price(out, p),
        None => out.append("null"),
    }
}

/// Appends one price level to `out`.
fn write_level(out: &mut String, price: usize, quantity: u128)
    ensures
        final(out)@ == old(out)@ + level_text((price as nat, quantity as nat)),
{
    out.append("{\"price\": ");
    write_price(out, price);
    out.append(", \"quantity\": ");
    write_decimal(out, quantity);
    out.append("}");
    assert(out@ =~= old(out)@ + level_text((price as nat, quantity as nat)));
}

impl QueryResponse {
    /// Writes the response as one JSON object.
    pub fn to_json(&self) -> (json: String)
        ensures
            json@ == self@.json(),
    {
        match self {
            QueryResponse::Connected => "{\"response\": \"connected\"}".to_owned(),
            QueryResponse::OrderPosted => "{\"response\": \"order_posted\"}".to_owned(),
            QueryResponse::QueriedOrders(levels) => {
                let mut out = "{\"response\": \"queried_orders\", \"orders\": [".to_owned();
                let ghost head = out@;
                let ghost shown = level_views(levels@);
                let mut i: usize = 0;
                assert(shown.take(0) =~= Seq::empty());
                assert(out@ =~= head + levels_text(shown.take(0)));
                while i < levels.len()
                    invariant
                        0 <= i <= levels.len(),
                        shown == level_views(levels@),
                        out@ == head + levels_text(shown.take(i as int)),
                    decreases levels.len() - i,
                {
                    if i > 0 {
                        out.append(",");
                    }
                    write_level(&mut out, levels[i].0, levels[i].1);
                    proof {
                        let upto = shown.take(i + 1);
                        assert(upto.drop_last() =~= shown.take(i as int));
                        assert(upto.last() == (levels[i as int].0 as nat, levels[i as int].1 as nat));
                        assert(upto.len() == 1 ==> upto[0] == upto.last());
                        assert(out@ =~= head + levels_text(upto));
                    }
                    i = i + 1;
                }
                assert(shown.take(i as int) =~= shown);
                out.append("]}");
                out
            },
            QueryResponse::Ohlc(open, high, low, close) => {
                let mut out = "{\"response\": \"ohlc\", \"open\": ".to_owned();
                write_optional_price(&mut out, *open);
                out.append(", \"high\": ");
                write_optional_price(&mut out, *high);
                out.append(", \"low\": ");
                write_optional_price(&mut out, *low);
                out.append(", \"close\": ");
                write_optional_price(&mut out, *close);
                out.append("}");
                assert(out@ =~= self@.json());
                out
            },
            QueryResponse::ExecutedTrade(trade) => {
                let mut out = "{\"response\": \"executed_trade\", \"buyer_id\": ".to_owned();
                write_decimal(&mut out, trade.buyer_id as u128);
                out.append(", \"seller_id\": ");
                write_decimal(&mut out, trade.seller_id as u128);
                out.append(", \"price\": ");
                write_price(&mut out, trade.price);
                out.append(", \"quantity\": ");
                write_decimal(&mut out, trade.quantity as u128);
                out.append("}");
                assert(out@ =~= self@.json());
                out
            },
            QueryResponse::SymbolNotFound => "{\"response\": \"symbol_not_found\"}".to_owned(),
        }
    }
}

} // verus!
