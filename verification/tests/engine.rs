use std::collections::HashMap;
use stock_market::engine::{resolve_query, tick, trade_notices, Notice, Party, TICK_INTERVAL_MILLISECS};
use stock_market::market::Market;
use stock_market::order::{Clock, Order, Timestamp};
use stock_market::query::{Query, QueryResponse};
use stock_market::session::{
    session_step, ConnectionIds, SessionAction, SessionEvent, MALFORMED_REQUEST, MARKET_CLOSED,
};
use stock_market::stock::Stock;
use stock_market::trade::Trade;

fn at(secs: i64) -> Timestamp {
    Timestamp::new(secs, 0)
}

fn market_with(symbols: &[&str]) -> Market {
    let mut market = Market::new();
    for symbol in symbols {
        market.add_stock(symbol.to_string(), Stock::new(symbol, symbol));
    }
    market
}

fn text(response: Option<QueryResponse>) -> Option<String> {
    response.map(|r| r.to_json())
}

#[test]
fn the_tick_is_ten_milliseconds() {
    assert_eq!(TICK_INTERVAL_MILLISECS, 10);
}

#[test]
fn connect_registers_the_sink() {
    let mut market = market_with(&["V"]);
    let mut connections: HashMap<usize, &str> = HashMap::new();
    let response = resolve_query(1, Query::Connect("first"), &mut connections, &mut market);
    assert_eq!(text(response), Some(r#"{"response": "connected"}"#.to_string()));
    assert_eq!(connections.get(&1), Some(&"first"));
    let response = resolve_query(1, Query::Connect("second"), &mut connections, &mut market);
    assert_eq!(text(response), Some(r#"{"response": "connected"}"#.to_string()));
    assert_eq!(connections.get(&1), Some(&"second"));
    assert_eq!(connections.len(), 1);
}

#[test]
fn queries_of_unknown_connections_are_dropped() {
    let mut market = market_with(&["V"]);
    let mut connections: HashMap<usize, ()> = HashMap::new();
    let order = Order::with_time(5, 1000, 1, at(0));
    assert!(resolve_query(5, Query::Buy("V".to_string(), order), &mut connections, &mut market)
        .is_none());
    assert!(resolve_query(5, Query::Sell("V".to_string(), order), &mut connections, &mut market)
        .is_none());
    assert!(resolve_query(5, Query::Ohlc("V".to_string()), &mut connections, &mut market).is_none());
    assert!(
        resolve_query(5, Query::BuyOrders("V".to_string()), &mut connections, &mut market).is_none()
    );
    assert!(
        resolve_query(5, Query::SellOrders("V".to_string()), &mut connections, &mut market)
            .is_none()
    );
    assert!(connections.is_empty());
    assert!(market.get_stock("V").unwrap().get_buy_orders().is_empty());
    assert!(market.get_stock("V").unwrap().get_sell_orders().is_empty());
}

#[test]
fn queries_of_registered_connections_are_answered() {
    let mut market = market_with(&["V"]);
    let mut connections: HashMap<usize, ()> = HashMap::new();
    resolve_query(1, Query::Connect(()), &mut connections, &mut market);
    let buy = Order::with_time(1, 1000, 2, at(0));
    let sell = Order::with_time(1, 1100, 3, at(1));
    assert_eq!(
        text(resolve_query(1, Query::Buy("V".to_string(), buy), &mut connections, &mut market)),
        Some(r#"{"response": "order_posted"}"#.to_string())
    );
    assert_eq!(
        text(resolve_query(1, Query::Sell("V".to_string(), sell), &mut connections, &mut market)),
        Some(r#"{"response": "order_posted"}"#.to_string())
    );
    assert_eq!(
        text(resolve_query(1, Query::BuyOrders("V".to_string()), &mut connections, &mut market)),
        Some(
            r#"{"response": "queried_orders", "orders": [{"price": 10.00, "quantity": 2}]}"#
                .to_string()
        )
    );
    assert_eq!(
        text(resolve_query(1, Query::SellOrders("V".to_string()), &mut connections, &mut market)),
        Some(
            r#"{"response": "queried_orders", "orders": [{"price": 11.00, "quantity": 3}]}"#
                .to_string()
        )
    );
    assert_eq!(
        text(resolve_query(1, Query::Ohlc("V".to_string()), &mut connections, &mut market)),
        Some(
            r#"{"response": "ohlc", "open": null, "high": null, "low": null, "close": null}"#
                .to_string()
        )
    );
}

#[test]
fn unknown_symbols_are_reported() {
    let mut market = market_with(&["V"]);
    let mut connections: HashMap<usize, ()> = HashMap::new();
    resolve_query(1, Query::Connect(()), &mut connections, &mut market);
    let order = Order::with_time(1, 1000, 2, at(0));
    let missing = Some(r#"{"response": "symbol_not_found"}"#.to_string());
    assert_eq!(
        text(resolve_query(1, Query::Buy("W".to_string(), order), &mut connections, &mut market)),
        missing
    );
    assert_eq!(
        text(resolve_query(1, Query::Sell("W".to_string(), order), &mut connections, &mut market)),
        missing
    );
    assert_eq!(
        text(resolve_query(1, Query::Ohlc("W".to_string()), &mut connections, &mut market)),
        missing
    );
    assert_eq!(
        text(resolve_query(1, Query::BuyOrders("W".to_string()), &mut connections, &mut market)),
        missing
    );
    assert_eq!(
        text(resolve_query(1, Query::SellOrders("W".to_string()), &mut connections, &mut market)),
        missing
    );
    assert!(market.get_stock("V").unwrap().get_buy_orders().is_empty());
}

#[test]
fn both_parties_are_told_of_a_trade_buyer_first() {
    let mut market = market_with(&["V"]);
    let mut connections: HashMap<usize, ()> = HashMap::new();
    resolve_query(1, Query::Connect(()), &mut connections, &mut market);
    resolve_query(2, Query::Connect(()), &mut connections, &mut market);
    let (executed, notices) = tick(&mut market, &connections);
    assert_eq!(executed, vec![("V".to_string(), vec![])]);
    assert!(notices.is_empty());

    let buy = Order::with_time(1, 1000, 1, at(0));
    let sell = Order::with_time(2, 1000, 1, at(1));
    resolve_query(1, Query::Buy("V".to_string(), buy), &mut connections, &mut market);
    resolve_query(2, Query::Sell("V".to_string(), sell), &mut connections, &mut market);
    // Posted in this tick: nothing has traded yet.
    assert_eq!(market.get_stock("V").unwrap().get_buy_orders(), vec![(1000, 1)]);
    assert_eq!(market.get_stock("V").unwrap().get_sell_orders(), vec![(1000, 1)]);

    let trade = Trade { buyer_id: 1, seller_id: 2, price: 1000, quantity: 1 };
    let (executed, notices) = tick(&mut market, &connections);
    assert_eq!(executed, vec![("V".to_string(), vec![trade])]);
    assert_eq!(
        notices,
        vec![
            Notice { party: Party::Buyer, recipient: 1, registered: true, trade },
            Notice { party: Party::Seller, recipient: 2, registered: true, trade },
        ]
    );
    let (executed, notices) = tick(&mut market, &connections);
    assert_eq!(executed, vec![("V".to_string(), vec![])]);
    assert!(notices.is_empty());
}

#[test]
fn parties_that_have_gone_are_marked() {
    let mut connections: HashMap<usize, ()> = HashMap::new();
    connections.insert(2, ());
    let first = Trade { buyer_id: 1, seller_id: 2, price: 1000, quantity: 1 };
    let second = Trade { buyer_id: 2, seller_id: 3, price: 900, quantity: 4 };
    let third = Trade { buyer_id: 2, seller_id: 2, price: 800, quantity: 5 };
    let executed = vec![
        ("A".to_string(), vec![first, second]),
        ("B".to_string(), vec![]),
        ("C".to_string(), vec![third]),
    ];
    assert_eq!(
        trade_notices(&executed, &connections),
        vec![
            Notice { party: Party::Buyer, recipient: 1, registered: false, trade: first },
            Notice { party: Party::Seller, recipient: 2, registered: true, trade: first },
            Notice { party: Party::Buyer, recipient: 2, registered: true, trade: second },
            Notice { party: Party::Seller, recipient: 3, registered: false, trade: second },
            Notice { party: Party::Buyer, recipient: 2, registered: true, trade: third },
            Notice { party: Party::Seller, recipient: 2, registered: true, trade: third },
        ]
    );
    assert!(trade_notices(&vec![], &connections).is_empty());
}

#[test]
fn connection_ids_start_at_one_and_grow() {
    let mut ids = ConnectionIds::new();
    assert_eq!(ids.allocate(), Some(1));
    assert_eq!(ids.allocate(), Some(2));
    assert_eq!(ids.allocate(), Some(3));
}

#[test]
fn session_writes_responses() {
    let action: SessionAction<()> = session_step(1, SessionEvent::Response(QueryResponse::Connected), &mut Clock::new());
    assert!(matches!(action, SessionAction::Write(text) if text == r#"{"response": "connected"}"#));
}

#[test]
fn session_tells_the_client_that_the_market_closed() {
    let action: SessionAction<()> = session_step(1, SessionEvent::MarketGone, &mut Clock::new());
    assert!(
        matches!(action, SessionAction::WriteAndClose(text) if text == r#"{"response": "market closed"}"#)
    );
    assert_eq!(MARKET_CLOSED, r#"{"response": "market closed"}"#);
}

#[test]
fn session_forwards_requests_it_can_read() {
    let request = r#"{"type": "sell", "symbol": "V", "price": 10.00, "quantity": 1}"#.to_string();
    let action: SessionAction<()> = session_step(4, SessionEvent::Request(request), &mut Clock::new());
    match action {
        SessionAction::Forward(Query::Sell(symbol, order)) => {
            assert_eq!(symbol, "V");
            assert_eq!(order.get_creator_id(), 4);
            assert_eq!(order.get_price(), 1000);
            assert_eq!(order.get_quantity(), 1);
        }
        other => panic!("not forwarded: {:?}", other),
    }
}

#[test]
fn session_rejects_requests_it_cannot_read() {
    let action: SessionAction<()> = session_step(4, SessionEvent::Request("{".to_string()), &mut Clock::new());
    assert!(
        matches!(action, SessionAction::Write(text) if text == r#"{"response": "malformed request"}"#)
    );
    assert_eq!(MALFORMED_REQUEST, r#"{"response": "malformed request"}"#);
}

#[test]
fn session_closes_on_the_end_of_the_stream() {
    let ended: SessionAction<()> = session_step(1, SessionEvent::EndOfStream, &mut Clock::new());
    assert!(matches!(ended, SessionAction::Close));
    let failed: SessionAction<()> = session_step(1, SessionEvent::ReadFailed, &mut Clock::new());
    assert!(matches!(failed, SessionAction::Close));
    let shutdown: SessionAction<()> = session_step(1, SessionEvent::Shutdown, &mut Clock::new());
    assert!(matches!(shutdown, SessionAction::Close));
}

#[test]
fn responses_compare_by_what_they_hold() {
    let mut market = market_with(&["V"]);
    let mut connections: HashMap<usize, ()> = HashMap::new();
    assert_eq!(
        resolve_query(9, Query::Connect(()), &mut connections, &mut market),
        Some(QueryResponse::Connected)
    );
    let order = Order::with_time(9, 2550, 3, at(0));
    assert_eq!(
        resolve_query(9, Query::Sell("V".to_string(), order), &mut connections, &mut market),
        Some(QueryResponse::OrderPosted)
    );
    assert_eq!(
        resolve_query(9, Query::SellOrders("V".to_string()), &mut connections, &mut market),
        Some(QueryResponse::QueriedOrders(vec![(2550, 3)]))
    );
    assert_eq!(
        resolve_query(9, Query::BuyOrders("V".to_string()), &mut connections, &mut market),
        Some(QueryResponse::QueriedOrders(vec![]))
    );
    assert_eq!(
        resolve_query(9, Query::Ohlc("V".to_string()), &mut connections, &mut market),
        Some(QueryResponse::Ohlc(None, None, None, None))
    );
    assert_eq!(
        resolve_query(9, Query::Ohlc("nope".to_string()), &mut connections, &mut market),
        Some(QueryResponse::SymbolNotFound)
    );
}
