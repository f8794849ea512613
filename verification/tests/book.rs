use stock_market::ohlc::Ohlc;
use stock_market::order::{Clock, Order, Timestamp};
use stock_market::stock::Stock;
use stock_market::trade::Trade;

/// A price in currency units as hundredths, cut off behind the second decimal.
fn cents(price: f64) -> usize {
    (price * 100.0) as usize
}

/// A price in hundredths as currency units.
fn units(price: usize) -> f64 {
    price as f64 / 100.0
}

fn at(secs: i64) -> Timestamp {
    Timestamp::new(secs, 0)
}

fn depth_in_units(levels: Vec<(usize, u128)>) -> Vec<(f64, u128)> {
    levels.into_iter().map(|(price, quantity)| (units(price), quantity)).collect()
}

/// Tests trade resolution, checking the returned logs and stored pending orders.
#[test]
fn test_resolve_trade() {
    let mut clock = Clock::new();
    let mut stock = Stock::new("ORT", "Orchard de Rosa et Tulipan");
    let buy_order = Order::new(1, cents(150.5), 10, &mut clock);
    let sell_order = Order::new(2, cents(150.0), 5, &mut clock);

    stock.add_buy_order(buy_order);
    stock.add_sell_order(sell_order);

    let trades = stock.resolve();
    assert_eq!(trades.len(), 1);
    assert_eq!(trades[0].buyer_id, 1);
    assert_eq!(trades[0].seller_id, 2);
    assert_eq!(units(trades[0].price), 150.5);
    assert_eq!(trades[0].quantity, 5);

    // Verify remaining orders
    assert_eq!(stock.get_buy_orders()[0].1, 5);
    assert!(stock.get_sell_orders().is_empty());
}

/// Tests whether OHLC is updated correctly.
#[test]
fn test_ohlc_update() {
    let mut ohlc = Ohlc::new();
    ohlc.update(cents(150.0));
    ohlc.update(cents(155.0));
    ohlc.update(cents(145.0));
    ohlc.update(cents(148.0));

    let (open, high, low, close) = ohlc.get();
    assert_eq!(open.map(units), Some(150.0));
    assert_eq!(high.map(units), Some(155.0));
    assert_eq!(low.map(units), Some(145.0));
    assert_eq!(close.map(units), Some(148.0));
}

/// Tests buy queries.
#[test]
fn test_query_buy_orders() {
    let mut clock = Clock::new();
    let mut stock = Stock::new("ORT", "Orchard de Rosa et Tulipan");
    stock.add_buy_order(Order::new(1, cents(150.0), 10, &mut clock));
    stock.add_buy_order(Order::new(2, cents(155.0), 5, &mut clock));
    stock.add_buy_order(Order::new(3, cents(150.0), 15, &mut clock));

    let buy_orders = depth_in_units(stock.get_buy_orders());
    assert_eq!(buy_orders.len(), 2); // Only unique prices are kept
    assert_eq!(buy_orders[0], (155.0, 5)); // Highest price first
    assert_eq!(buy_orders[1], (150.0, 25)); // Combined quantities
}

#[test]
fn test_query_sell_orders() {
    let mut clock = Clock::new();
    let mut stock = Stock::new("ORT", "Orchard de Rosa et Tulipan");
    stock.add_sell_order(Order::new(1, cents(145.0), 10, &mut clock));
    stock.add_sell_order(Order::new(2, cents(140.0), 5, &mut clock));
    stock.add_sell_order(Order::new(3, cents(145.0), 15, &mut clock));

    let sell_orders = depth_in_units(stock.get_sell_orders());
    assert_eq!(sell_orders.len(), 2); // Only unique prices are kept
    assert_eq!(sell_orders[0], (140.0, 5)); // Lowest price first
    assert_eq!(sell_orders[1], (145.0, 25)); // Combined quantities
}

#[test]
fn new_stock_is_empty() {
    let stock = Stock::new("V", "Vulyenne");
    assert_eq!(stock.get_symbol(), "V");
    assert_eq!(stock.get_name(), "Vulyenne");
    assert!(stock.get_buy_orders().is_empty());
    assert!(stock.get_sell_orders().is_empty());
    assert_eq!(stock.get_ohlc(), (None, None, None, None));
}

#[test]
fn order_keeps_what_it_was_made_with() {
    let order = Order::with_time(7, 12345, 6, Timestamp::new(10, 20));
    assert_eq!(order.get_creator_id(), 7);
    assert_eq!(order.get_price(), 12345);
    assert_eq!(order.get_quantity(), 6);
    assert_eq!(order.get_time(), Timestamp::new(10, 20));
    assert_eq!(order.get_value(), 74070);
}

#[test]
fn order_value_does_not_overflow() {
    let order = Order::with_time(1, usize::MAX, usize::MAX, at(0));
    assert_eq!(order.get_value(), (usize::MAX as u128) * (usize::MAX as u128));
}

#[test]
fn order_resolve_takes_the_quantity_off() {
    let mut order = Order::with_time(1, 100, 10, at(0));
    order.resolve(4);
    assert_eq!(order.get_quantity(), 6);
    assert_eq!(order.get_price(), 100);
    order.resolve(6);
    assert_eq!(order.get_quantity(), 0);
}

#[test]
fn new_orders_are_stamped_in_order() {
    let mut clock = Clock::new();
    let first = Order::new(1, 100, 1, &mut clock);
    assert_eq!(clock.last(), first.get_time());
    let second = Order::new(1, 100, 1, &mut clock);
    assert_eq!(clock.last(), second.get_time());
    assert!(!second.get_time().is_before(&first.get_time()));
}

#[test]
fn a_clock_never_goes_back() {
    let mut clock = Clock::new();
    assert_eq!(clock.last(), Timestamp::new(0, 0));
    assert_eq!(clock.advance(Some(Timestamp::new(100, 5))), Timestamp::new(100, 5));
    assert_eq!(clock.advance(Some(Timestamp::new(99, 999_999_999))), Timestamp::new(100, 5));
    assert_eq!(clock.advance(Some(Timestamp::new(100, 4))), Timestamp::new(100, 5));
    assert_eq!(clock.advance(None), Timestamp::new(100, 5));
    assert_eq!(clock.advance(Some(Timestamp::new(100, 5))), Timestamp::new(100, 5));
    assert_eq!(clock.advance(Some(Timestamp::new(100, 6))), Timestamp::new(100, 6));
    assert_eq!(clock.advance(Some(Timestamp::new(200, 0))), Timestamp::new(200, 0));
    assert_eq!(clock.last(), Timestamp::new(200, 0));
}

#[test]
fn a_clock_takes_no_reading_that_no_clock_gives() {
    let mut clock = Clock::new();
    assert_eq!(clock.advance(Some(Timestamp::new(-1, 0))), Timestamp::new(0, 0));
    assert_eq!(clock.advance(Some(Timestamp::new(5, 1_000_000_000))), Timestamp::new(0, 0));
    assert_eq!(clock.advance(Some(Timestamp::new(5, 999_999_999))), Timestamp::new(5, 999_999_999));
}

#[test]
fn a_clock_follows_the_system_clock() {
    let mut clock = Clock::new();
    let first = clock.now();
    let second = clock.now();
    assert!(Timestamp::new(1_600_000_000, 0).is_before(&first));
    assert!(!second.is_before(&first));
    assert_eq!(clock.last(), second);
}

#[test]
fn timestamps_are_ordered_by_seconds_then_nanoseconds() {
    assert!(Timestamp::new(1, 999).is_before(&Timestamp::new(2, 0)));
    assert!(Timestamp::new(1, 5).is_before(&Timestamp::new(1, 6)));
    assert!(!Timestamp::new(1, 5).is_before(&Timestamp::new(1, 5)));
    assert!(!Timestamp::new(2, 0).is_before(&Timestamp::new(1, 999)));
    assert!(Timestamp::new(-1, 0).is_before(&Timestamp::new(0, 0)));
}

#[test]
fn now_is_after_the_epoch() {
    let now = Timestamp::now().unwrap();
    assert!(Timestamp::new(1_600_000_000, 0).is_before(&now));
    assert!(now.secs >= 0);
    assert!(now.nanos < 1_000_000_000);
    let mut clock = Clock::new();
    let order = Order::new(1, 100, 1, &mut clock);
    assert!(!order.get_time().is_before(&now));
    assert!(order.get_time().nanos < 1_000_000_000);
}

#[test]
fn basic_cross_executes_at_the_earlier_sellers_price() {
    let mut stock = Stock::new("V", "Vulyenne");
    stock.add_buy_order(Order::with_time(1, 15050, 10, at(2)));
    stock.add_sell_order(Order::with_time(2, 15000, 5, at(1)));
    let trades = stock.resolve();
    assert_eq!(trades, vec![Trade { buyer_id: 1, seller_id: 2, price: 15000, quantity: 5 }]);
    assert_eq!(stock.get_buy_orders(), vec![(15050, 5)]);
    assert!(stock.get_sell_orders().is_empty());
    assert_eq!(stock.get_ohlc(), (Some(15000), Some(15000), Some(15000), Some(15000)));
}

#[test]
fn no_cross_makes_no_trade() {
    let mut stock = Stock::new("V", "Vulyenne");
    stock.add_buy_order(Order::with_time(1, 10000, 10, at(1)));
    stock.add_sell_order(Order::with_time(2, 10100, 10, at(2)));
    let trades = stock.resolve();
    assert!(trades.is_empty());
    assert_eq!(stock.get_buy_orders(), vec![(10000, 10)]);
    assert_eq!(stock.get_sell_orders(), vec![(10100, 10)]);
    assert_eq!(stock.get_ohlc(), (None, None, None, None));
}

#[test]
fn partial_fill_takes_counterparties_in_order() {
    let mut stock = Stock::new("V", "Vulyenne");
    stock.add_sell_order(Order::with_time(10, 5000, 3, at(1)));
    stock.add_sell_order(Order::with_time(11, 5000, 4, at(2)));
    stock.add_buy_order(Order::with_time(20, 5000, 6, at(3)));
    let trades = stock.resolve();
    assert_eq!(
        trades,
        vec![
            Trade { buyer_id: 20, seller_id: 10, price: 5000, quantity: 3 },
            Trade { buyer_id: 20, seller_id: 11, price: 5000, quantity: 3 },
        ]
    );
    assert_eq!(stock.get_sell_orders(), vec![(5000, 1)]);
    assert!(stock.get_buy_orders().is_empty());
    assert_eq!(stock.get_ohlc(), (Some(5000), Some(5000), Some(5000), Some(5000)));
}

#[test]
fn earlier_buyer_sets_the_price() {
    let mut stock = Stock::new("V", "Vulyenne");
    stock.add_buy_order(Order::with_time(1, 20000, 5, at(0)));
    stock.add_sell_order(Order::with_time(2, 18000, 5, at(1)));
    let trades = stock.resolve();
    assert_eq!(trades, vec![Trade { buyer_id: 1, seller_id: 2, price: 20000, quantity: 5 }]);
    assert_eq!(stock.get_ohlc().1, Some(20000));
}

#[test]
fn equal_times_execute_at_the_buyers_price() {
    let mut stock = Stock::new("V", "Vulyenne");
    stock.add_sell_order(Order::with_time(2, 18000, 5, at(7)));
    stock.add_buy_order(Order::with_time(1, 20000, 5, at(7)));
    let trades = stock.resolve();
    assert_eq!(trades, vec![Trade { buyer_id: 1, seller_id: 2, price: 20000, quantity: 5 }]);
}

#[test]
fn nanoseconds_decide_who_was_earlier() {
    let mut stock = Stock::new("V", "Vulyenne");
    stock.add_buy_order(Order::with_time(1, 20000, 5, Timestamp::new(7, 500)));
    stock.add_sell_order(Order::with_time(2, 18000, 5, Timestamp::new(7, 499)));
    let trades = stock.resolve();
    assert_eq!(trades[0].price, 18000);
}

#[test]
fn depth_shows_the_five_best_prices() {
    let mut stock = Stock::new("V", "Vulyenne");
    let prices = [700, 600, 500, 400, 300, 200, 100];
    for (k, price) in prices.iter().enumerate() {
        stock.add_buy_order(Order::with_time(1, *price, k + 1, at(k as i64)));
    }
    assert_eq!(
        stock.get_buy_orders(),
        vec![(700, 1), (600, 2), (500, 3), (400, 4), (300, 5)]
    );
}

#[test]
fn sell_depth_shows_the_five_lowest_prices() {
    let mut stock = Stock::new("V", "Vulyenne");
    let prices = [400, 100, 700, 300, 600, 200, 500];
    for (k, price) in prices.iter().enumerate() {
        stock.add_sell_order(Order::with_time(1, *price, 10, at(k as i64)));
        stock.add_sell_order(Order::with_time(2, *price, 1, at(k as i64)));
    }
    assert_eq!(
        stock.get_sell_orders(),
        vec![(100, 11), (200, 11), (300, 11), (400, 11), (500, 11)]
    );
}

#[test]
fn depth_totals_do_not_overflow() {
    let mut stock = Stock::new("V", "Vulyenne");
    stock.add_buy_order(Order::with_time(1, 100, usize::MAX, at(0)));
    stock.add_buy_order(Order::with_time(2, 100, usize::MAX, at(1)));
    assert_eq!(stock.get_buy_orders(), vec![(100, 2 * (usize::MAX as u128))]);
}

#[test]
fn adding_an_order_deepens_its_level_by_its_quantity() {
    let mut stock = Stock::new("V", "Vulyenne");
    stock.add_buy_order(Order::with_time(1, 900, 4, at(0)));
    stock.add_buy_order(Order::with_time(2, 800, 7, at(1)));
    let before = stock.get_buy_orders();
    stock.add_buy_order(Order::with_time(3, 800, 5, at(2)));
    let after = stock.get_buy_orders();
    assert_eq!(before, vec![(900, 4), (800, 7)]);
    assert_eq!(after, vec![(900, 4), (800, 12)]);
}

#[test]
fn equal_prices_fill_in_the_order_of_arrival() {
    let mut stock = Stock::new("V", "Vulyenne");
    // The times run against the order of arrival: arrival decides.
    stock.add_buy_order(Order::with_time(1, 1000, 2, at(30)));
    stock.add_buy_order(Order::with_time(2, 1000, 2, at(20)));
    stock.add_buy_order(Order::with_time(3, 1000, 2, at(10)));
    stock.add_sell_order(Order::with_time(9, 1000, 3, at(40)));
    let trades = stock.resolve();
    assert_eq!(
        trades,
        vec![
            Trade { buyer_id: 1, seller_id: 9, price: 1000, quantity: 2 },
            Trade { buyer_id: 2, seller_id: 9, price: 1000, quantity: 1 },
        ]
    );
    assert_eq!(stock.get_buy_orders(), vec![(1000, 3)]);
}

#[test]
fn better_prices_fill_first() {
    let mut stock = Stock::new("V", "Vulyenne");
    stock.add_buy_order(Order::with_time(1, 1000, 1, at(1)));
    stock.add_buy_order(Order::with_time(2, 1200, 1, at(2)));
    stock.add_buy_order(Order::with_time(3, 1100, 1, at(3)));
    stock.add_sell_order(Order::with_time(7, 1050, 1, at(4)));
    stock.add_sell_order(Order::with_time(8, 900, 1, at(5)));
    let trades = stock.resolve();
    assert_eq!(
        trades,
        vec![
            Trade { buyer_id: 2, seller_id: 8, price: 1200, quantity: 1 },
            Trade { buyer_id: 3, seller_id: 7, price: 1100, quantity: 1 },
        ]
    );
    assert_eq!(stock.get_buy_orders(), vec![(1000, 1)]);
    assert!(stock.get_sell_orders().is_empty());
    assert_eq!(stock.get_ohlc(), (Some(1200), Some(1200), Some(1100), Some(1100)));
}

#[test]
fn trades_conserve_quantity_and_respect_limits() {
    let mut stock = Stock::new("V", "Vulyenne");
    let buys = [(1, 1300, 5), (2, 1250, 7), (3, 1100, 2)];
    let sells = [(4, 1000, 4), (5, 1200, 6), (6, 1260, 9)];
    for (k, (id, price, quantity)) in buys.iter().enumerate() {
        stock.add_buy_order(Order::with_time(*id, *price, *quantity, at(k as i64)));
    }
    for (k, (id, price, quantity)) in sells.iter().enumerate() {
        stock.add_sell_order(Order::with_time(*id, *price, *quantity, at(10 + k as i64)));
    }
    let trades = stock.resolve();
    assert_eq!(
        trades,
        vec![
            Trade { buyer_id: 1, seller_id: 4, price: 1300, quantity: 4 },
            Trade { buyer_id: 1, seller_id: 5, price: 1300, quantity: 1 },
            Trade { buyer_id: 2, seller_id: 5, price: 1250, quantity: 5 },
        ]
    );
    for trade in &trades {
        let buy = buys.iter().find(|b| b.0 == trade.buyer_id).unwrap();
        let sell = sells.iter().find(|s| s.0 == trade.seller_id).unwrap();
        assert!(buy.1 >= trade.price && trade.price >= sell.1);
    }
    let bought: usize = trades.iter().map(|t| t.quantity).sum();
    assert_eq!(bought, 10);
    // 12 of 14 were bid at 1250 or more, 10 were filled; 2 rest at 1250 and 2 at 1100.
    assert_eq!(stock.get_buy_orders(), vec![(1250, 2), (1100, 2)]);
    assert_eq!(stock.get_sell_orders(), vec![(1260, 9)]);
}

#[test]
fn resolving_twice_changes_nothing_more() {
    let mut stock = Stock::new("V", "Vulyenne");
    stock.add_buy_order(Order::with_time(1, 1300, 5, at(0)));
    stock.add_buy_order(Order::with_time(2, 1100, 5, at(1)));
    stock.add_sell_order(Order::with_time(3, 1200, 8, at(2)));
    assert_eq!(stock.resolve().len(), 1);
    let buys = stock.get_buy_orders();
    let sells = stock.get_sell_orders();
    let ohlc = stock.get_ohlc();
    assert!(stock.resolve().is_empty());
    assert_eq!(stock.get_buy_orders(), buys);
    assert_eq!(stock.get_sell_orders(), sells);
    assert_eq!(stock.get_ohlc(), ohlc);
}

#[test]
fn resolving_an_empty_book_does_nothing() {
    let mut stock = Stock::new("V", "Vulyenne");
    assert!(stock.resolve().is_empty());
    assert!(stock.get_buy_orders().is_empty());
    assert!(stock.get_sell_orders().is_empty());
    assert_eq!(stock.get_ohlc(), (None, None, None, None));
}

#[test]
fn spent_orders_leave_the_book() {
    let mut stock = Stock::new("V", "Vulyenne");
    stock.add_sell_order(Order::with_time(1, 1000, 0, at(0)));
    stock.add_sell_order(Order::with_time(2, 1000, 3, at(1)));
    assert_eq!(stock.get_sell_orders(), vec![(1000, 3)]);
    assert!(stock.resolve().is_empty());
    stock.add_buy_order(Order::with_time(3, 1000, 3, at(2)));
    let trades = stock.resolve();
    assert_eq!(trades, vec![Trade { buyer_id: 3, seller_id: 2, price: 1000, quantity: 3 }]);
    assert!(stock.get_sell_orders().is_empty());
    assert!(stock.get_buy_orders().is_empty());
}

#[test]
fn ohlc_opens_once_and_tracks_the_extremes() {
    let mut ohlc = Ohlc::new();
    assert_eq!(ohlc.get(), (None, None, None, None));
    ohlc.update(500);
    assert_eq!(ohlc.get(), (Some(500), Some(500), Some(500), Some(500)));
    ohlc.update(700);
    assert_eq!(ohlc.get(), (Some(500), Some(700), Some(500), Some(700)));
    ohlc.update(300);
    assert_eq!(ohlc.get(), (Some(500), Some(700), Some(300), Some(300)));
    ohlc.update(600);
    assert_eq!(ohlc.get(), (Some(500), Some(700), Some(300), Some(600)));
}

#[test]
fn trade_new_fills_the_fields() {
    let trade = Trade::new(1, 2, 300, 4);
    assert_eq!(trade, Trade { buyer_id: 1, seller_id: 2, price: 300, quantity: 4 });
}

#[test]
fn an_order_without_quantity_trades_nothing_and_leaves() {
    let mut stock = Stock::new("V", "Vulyenne");
    stock.add_buy_order(Order::with_time(1, 1000, 0, at(0)));
    stock.add_sell_order(Order::with_time(2, 900, 4, at(1)));
    let trades = stock.resolve();
    assert_eq!(trades, vec![Trade { buyer_id: 1, seller_id: 2, price: 1000, quantity: 0 }]);
    assert!(stock.get_buy_orders().is_empty());
    assert_eq!(stock.get_sell_orders(), vec![(900, 4)]);
}

#[test]
fn a_buyer_under_the_best_offer_stops_the_cycle() {
    let mut stock = Stock::new("V", "Vulyenne");
    stock.add_buy_order(Order::with_time(1, 1000, 5, at(0)));
    stock.add_buy_order(Order::with_time(2, 900, 5, at(1)));
    stock.add_buy_order(Order::with_time(3, 800, 5, at(2)));
    stock.add_sell_order(Order::with_time(4, 950, 2, at(3)));
    stock.add_sell_order(Order::with_time(5, 990, 2, at(4)));
    stock.add_sell_order(Order::with_time(6, 1010, 2, at(5)));
    let trades = stock.resolve();
    assert_eq!(
        trades,
        vec![
            Trade { buyer_id: 1, seller_id: 4, price: 1000, quantity: 2 },
            Trade { buyer_id: 1, seller_id: 5, price: 1000, quantity: 2 },
        ]
    );
    assert_eq!(stock.get_buy_orders(), vec![(1000, 1), (900, 5), (800, 5)]);
    assert_eq!(stock.get_sell_orders(), vec![(1010, 2)]);
}

#[test]
fn each_creator_trades_what_leaves_its_orders() {
    let mut stock = Stock::new("V", "Vulyenne");
    // Creator 1 bids twice, creator 2 once; creator 3 offers twice, creator 1 once.
    stock.add_buy_order(Order::with_time(1, 1200, 4, at(0)));
    stock.add_buy_order(Order::with_time(2, 1150, 6, at(1)));
    stock.add_buy_order(Order::with_time(1, 1000, 5, at(2)));
    stock.add_sell_order(Order::with_time(3, 900, 3, at(3)));
    stock.add_sell_order(Order::with_time(1, 1100, 5, at(4)));
    stock.add_sell_order(Order::with_time(3, 1300, 9, at(5)));
    let trades = stock.resolve();
    assert_eq!(
        trades,
        vec![
            Trade { buyer_id: 1, seller_id: 3, price: 1200, quantity: 3 },
            Trade { buyer_id: 1, seller_id: 1, price: 1200, quantity: 1 },
            Trade { buyer_id: 2, seller_id: 1, price: 1150, quantity: 4 },
        ]
    );
    let bought = |id: usize| -> usize {
        trades.iter().filter(|t| t.buyer_id == id).map(|t| t.quantity).sum()
    };
    let sold = |id: usize| -> usize {
        trades.iter().filter(|t| t.seller_id == id).map(|t| t.quantity).sum()
    };
    // Bids: creator 1 had 9 and keeps 5, creator 2 had 6 and keeps 2.
    assert_eq!((bought(1), bought(2), bought(3)), (4, 4, 0));
    assert_eq!(stock.get_buy_orders(), vec![(1150, 2), (1000, 5)]);
    // Offers: creator 3 had 12 and keeps 9, creator 1 had 5 and keeps none.
    assert_eq!((sold(1), sold(2), sold(3)), (5, 0, 3));
    assert_eq!(stock.get_sell_orders(), vec![(1300, 9)]);
    assert_eq!(bought(1) + bought(2), sold(1) + sold(3));
    assert!(trades.iter().all(|t| t.quantity >= 1));
}
