use stock_market::market::Market;
use stock_market::order::{Order, Timestamp};
use stock_market::stock::Stock;
use stock_market::trade::Trade;

fn at(secs: i64) -> Timestamp {
    Timestamp::new(secs, 0)
}

#[test]
fn new_market_knows_no_symbol() {
    let mut market = Market::new();
    assert!(market.get_stock("V").is_none());
    assert!(market.get_stock_mut("V").is_none());
    assert!(market.resolve().is_empty());
}

#[test]
fn added_stock_is_found_by_its_symbol() {
    let mut market = Market::new();
    market.add_stock("V".to_string(), Stock::new("V", "Vulyenne"));
    market.add_stock("ORT".to_string(), Stock::new("ORT", "Orchard de Rosa et Tulipan"));
    assert_eq!(market.get_stock("V").unwrap().get_name(), "Vulyenne");
    assert_eq!(market.get_stock("ORT").unwrap().get_name(), "Orchard de Rosa et Tulipan");
    assert!(market.get_stock("v").is_none());
    assert!(market.get_stock("").is_none());
}

#[test]
fn stock_added_under_a_known_symbol_replaces_the_book() {
    let mut market = Market::new();
    market.add_stock("V".to_string(), Stock::new("V", "Vulyenne"));
    market.add_stock("W".to_string(), Stock::new("W", "Wander"));
    market.add_stock("V".to_string(), Stock::new("V", "Valerian"));
    assert_eq!(market.get_stock("V").unwrap().get_name(), "Valerian");
    let executed = market.resolve();
    let symbols: Vec<&str> = executed.iter().map(|(symbol, _)| symbol.as_str()).collect();
    assert_eq!(symbols, vec!["V", "W"]);
}

#[test]
fn extend_registers_every_stock() {
    let mut market = Market::new();
    market.add_stock("A".to_string(), Stock::new("A", "first"));
    market.extend_stocks(vec![
        ("B".to_string(), Stock::new("B", "second")),
        ("C".to_string(), Stock::new("C", "third")),
        ("B".to_string(), Stock::new("B", "fourth")),
    ]);
    assert_eq!(market.get_stock("A").unwrap().get_name(), "first");
    assert_eq!(market.get_stock("B").unwrap().get_name(), "fourth");
    assert_eq!(market.get_stock("C").unwrap().get_name(), "third");
    let executed = market.resolve();
    let symbols: Vec<&str> = executed.iter().map(|(symbol, _)| symbol.as_str()).collect();
    assert_eq!(symbols, vec!["A", "B", "C"]);
    market.extend_stocks(vec![]);
    assert_eq!(market.resolve().len(), 3);
}

#[test]
fn orders_are_posted_through_the_market() {
    let mut market = Market::new();
    market.add_stock("V".to_string(), Stock::new("V", "Vulyenne"));
    market.get_stock_mut("V").unwrap().add_buy_order(Order::with_time(1, 1000, 2, at(0)));
    market.get_stock_mut("V").unwrap().add_sell_order(Order::with_time(2, 1100, 3, at(1)));
    let stock = market.get_stock("V").unwrap();
    assert_eq!(stock.get_buy_orders(), vec![(1000, 2)]);
    assert_eq!(stock.get_sell_orders(), vec![(1100, 3)]);
}

#[test]
fn resolve_reports_every_book_under_its_symbol() {
    let mut market = Market::new();
    market.add_stock("A".to_string(), Stock::new("A", "Alder"));
    market.add_stock("B".to_string(), Stock::new("B", "Birch"));
    market.add_stock("C".to_string(), Stock::new("C", "Cedar"));
    market.get_stock_mut("A").unwrap().add_buy_order(Order::with_time(1, 500, 1, at(0)));
    market.get_stock_mut("A").unwrap().add_sell_order(Order::with_time(2, 500, 1, at(1)));
    market.get_stock_mut("C").unwrap().add_buy_order(Order::with_time(3, 700, 4, at(2)));
    market.get_stock_mut("C").unwrap().add_sell_order(Order::with_time(4, 600, 2, at(3)));
    market.get_stock_mut("B").unwrap().add_buy_order(Order::with_time(5, 100, 1, at(4)));
    let executed = market.resolve();
    assert_eq!(
        executed,
        vec![
            ("A".to_string(), vec![Trade { buyer_id: 1, seller_id: 2, price: 500, quantity: 1 }]),
            ("B".to_string(), vec![]),
            ("C".to_string(), vec![Trade { buyer_id: 3, seller_id: 4, price: 700, quantity: 2 }]),
        ]
    );
    assert_eq!(market.get_stock("C").unwrap().get_buy_orders(), vec![(700, 2)]);
    assert_eq!(market.get_stock("B").unwrap().get_buy_orders(), vec![(100, 1)]);
    let again = market.resolve();
    assert!(again.iter().all(|(_, trades)| trades.is_empty()));
    assert_eq!(again.len(), 3);
}
