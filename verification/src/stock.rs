//! The order book of one instrument.

use vstd::prelude::*;
use crate::matching::{
    drained, fill_of, fill_prices, lemma_cycle_only_drains, lemma_cycle_uncrosses, lemma_no_fill_no_change,
    lemma_nothing_spent_nothing_dropped, lemma_uncrossed_book_is_quiet,
    lemma_unspent_comes_from_queue, match_from, matching, spent_before, trade_of, trades_of,
    unspent, Fill, Matching,
};
use crate::ohlc::{price_view, Ohlc, OhlcView};
use crate::order::{Order, OrderView};
use crate::depth::{depth, level_views, queried_levels};
use crate::queue::{
    all_fit, better, lemma_place_keeps_sorted, lemma_slot_splits, lemma_sort_after_push,
    lemma_views_fit, place, sort_orders, sorted, views,
};
use crate::trade::Trade;

verus! {

/// `target` is what the fills `done` followed by the cycle from the buy order
/// at `i` and the sell order at `j` on come to.
spec fn tracks(
    target: Matching,
    done: Seq<Fill>,
    buys: Seq<OrderView>,
    sells: Seq<OrderView>,
    i: int,
    j: int,
) -> bool {
    let rest = match_from(buys, sells, i, j);
    &&& target.buys == rest.buys
    &&& target.sells == rest.sells
    &&& target.fills == done + rest.fills
}

/// The cycle makes no fill and changes nothing.
spec fn settled(buys: Seq<OrderView>, sells: Seq<OrderView>, i: int, j: int) -> bool {
    match_from(buys, sells, i, j) == (Matching { buys, sells, fills: Seq::empty() })
}

/// A buyer whose limit is under every sell price from `j` on cannot trade.
proof fn lemma_settled_under_all(buys: Seq<OrderView>, sells: Seq<OrderView>, i: int, j: int)
    requires
        0 <= i < buys.len(),
        0 <= j,
        forall|k: int| j <= k < sells.len() ==> buys[i].price < (#[trigger] sells[k]).price,
    ensures
        settled(buys, sells, i, j),
    decreases sells.len() - j,
{
    if j < sells.len() {
        if sells[j].spent() {
            lemma_settled_under_all(buys, sells, i, j + 1);
        }
    }
}

/// Runs one matching cycle over the two queues in place, recording every
/// execution price in `ohlc`, and returns the trades in the order in which
/// they were made. Spent orders stay where they are.
fn match_orders(buys: &mut Vec<Order>, sells: &mut Vec<Order>, ohlc: &mut Ohlc) -> (trades: Vec<
    Trade,
>)
    requires
        sorted(views(old(buys)@), true),
        sorted(views(old(sells)@), false),
    ensures
        views(final(buys)@) == matching(views(old(buys)@), views(old(sells)@)).buys,
        views(final(sells)@) == matching(views(old(buys)@), views(old(sells)@)).sells,
        trades@ == trades_of(
            matching(views(old(buys)@), views(old(sells)@)).fills,
            views(old(buys)@),
            views(old(sells)@),
        ),
        final(ohlc)@ == old(ohlc)@.record_all(
            fill_prices(matching(views(old(buys)@), views(old(sells)@)).fills),
        ),
        sorted(views(final(buys)@), true),
        sorted(views(final(sells)@), false),
{
    let ghost buys_before = views(buys@);
    let ghost sells_before = views(sells@);
    let ghost ohlc_before = ohlc@;
    let ghost target = matching(buys_before, sells_before);
    let ghost done: Seq<Fill> = Seq::empty();
    let ghost j: int = 0;
    let mut trades: Vec<Trade> = Vec::new();
    let mut i: usize = 0;
    let mut open = true;
    proof {
        assert(done + target.fills =~= target.fills);
        assert(fill_prices(done) =~= Seq::<nat>::empty());
        assert(trades@ =~= trades_of(done, buys_before, sells_before));
    }
    while open && i < buys.len()
        invariant
            0 <= i <= buys.len(),
            0 <= j <= sells.len(),
            buys.len() == buys_before.len(),
            sells.len() == sells_before.len(),
            forall|x: int|
                0 <= x < buys.len() ==> (#[trigger] views(buys@)[x]).creator_id
                    == buys_before[x].creator_id,
            forall|x: int|
                0 <= x < sells.len() ==> (#[trigger] views(sells@)[x]).creator_id
                    == sells_before[x].creator_id,
            sorted(views(buys@), true),
            sorted(views(sells@), false),
            spent_before(views(sells@), j),
            tracks(target, done, views(buys@), views(sells@), i as int, j),
            !open ==> settled(views(buys@), views(sells@), i as int, j),
            trades@ == trades_of(done, buys_before, sells_before),
            ohlc@ == ohlc_before.record_all(fill_prices(done)),
        decreases (if open { 1int } else { 0int }) + buys.len() - i,
    {
        if sells.len() == 0 {
            open = false;
        } else if buys[i].get_price() < sells[0].get_price() {
            proof {
                let bv = views(buys@);
                let sv = views(sells@);
                assert forall|k: int| j <= k < sv.len() implies bv[i as int].price < (
                #[trigger] sv[k]).price by {
                    if 0 < k {
                        assert(!better(sv[k].price, sv[0].price, false));
                    }
                }
                lemma_settled_under_all(bv, sv, i as int, j);
            }
            open = false;
        } else {
            let mut k: usize = 0;
            let mut scanning = true;
            while scanning && k < sells.len()
                invariant
                    0 <= i < buys.len(),
                    0 <= k <= j <= sells.len(),
                    buys.len() == buys_before.len(),
                    sells.len() == sells_before.len(),
                    forall|x: int|
                        0 <= x < buys.len() ==> (#[trigger] views(buys@)[x]).creator_id
                            == buys_before[x].creator_id,
                    forall|x: int|
                        0 <= x < sells.len() ==> (#[trigger] views(sells@)[x]).creator_id
                            == sells_before[x].creator_id,
                    sorted(views(buys@), true),
                    sorted(views(sells@), false),
                    spent_before(views(sells@), j),
                    scanning ==> tracks(target, done, views(buys@), views(sells@), i as int, j),
                    !scanning ==> tracks(
                        target,
                        done,
                        views(buys@),
                        views(sells@),
                        i as int + 1,
                        j,
                    ),
                    trades@ == trades_of(done, buys_before, sells_before),
                    ohlc@ == ohlc_before.record_all(fill_prices(done)),
                decreases (if scanning { 1int } else { 0int }) + sells.len() - k,
            {
                let ghost bv = views(buys@);
                let ghost sv = views(sells@);
                let mut sell = sells[k];
                let mut buy = buys[i];
                assert(sell@ == sv[k as int]);
                assert(buy@ == bv[i as int]);
                if sell.get_quantity() == 0 {
                    proof {
                        if k as int == j {
                            j = j + 1;
                        }
                    }
                    k = k + 1;
                } else if buy.get_price() >= sell.get_price() {
                    assert(k as int == j) by {
                        if (k as int) < j {
                            assert(sv[k as int].spent());
                        }
                    }
                    let price = if sell.get_time().is_before(&buy.get_time()) {
                        sell.get_price()
                    } else {
                        buy.get_price()
                    };
                    let quantity = if buy.get_quantity() <= sell.get_quantity() {
                        buy.get_quantity()
                    } else {
                        sell.get_quantity()
                    };
                    let ghost fill = fill_of(bv, sv, i as int, j);
                    buy.resolve(quantity);
                    sell.resolve(quantity);
                    buys.set(i, buy);
                    sells.set(k, sell);
                    trades.push(Trade::new(buy.get_creator_id(), sell.get_creator_id(), price, quantity));
                    ohlc.update(price);
                    proof {
                        let bv2 = views(buys@);
                        let sv2 = views(sells@);
                        assert(bv2 =~= bv.update(i as int, bv[i as int].filled(fill.quantity)));
                        assert(sv2 =~= sv.update(j, sv[j].filled(fill.quantity)));
                        assert forall|x: int, y: int| 0 <= x < y < bv2.len() implies !better(
                            #[trigger] bv2[y].price,
                            #[trigger] bv2[x].price,
                            true,
                        ) by {
                            assert(!better(bv[y].price, bv[x].price, true));
                        }
                        assert forall|x: int, y: int| 0 <= x < y < sv2.len() implies !better(
                            #[trigger] sv2[y].price,
                            #[trigger] sv2[x].price,
                            false,
                        ) by {
                            assert(!better(sv[y].price, sv[x].price, false));
                        }
                        assert forall|x: int| 0 <= x < j && x < sv2.len() implies (
                        #[trigger] sv2[x]).spent() by {
                            assert(sv[x].spent());
                        }
                        let grown = done.push(fill);
                        assert(trade_of(fill, buys_before, sells_before) == trades@.last());
                        assert(trades@ =~= trades_of(grown, buys_before, sells_before));
                        assert(fill_prices(grown).drop_last() =~= fill_prices(done));
                        assert(fill_prices(grown).last() == fill.price);
                        let rest = if bv2[i as int].spent() {
                            match_from(bv2, sv2, i as int + 1, j)
                        } else {
                            match_from(bv2, sv2, i as int, j + 1)
                        };
                        assert(target.fills =~= grown + rest.fills);
                        done = grown;
                        if !bv2[i as int].spent() {
                            assert(sv2[j].spent());
                            j = j + 1;
                        }
                    }
                    if buy.get_quantity() == 0 {
                        scanning = false;
                    } else {
                        k = k + 1;
                    }
                } else {
                    assert(k as int == j) by {
                        if (k as int) < j {
                            assert(sv[k as int].spent());
                        }
                    }
                    proof {
                        if i + 1 < bv.len() {
                            assert(!better(bv[i + 1].price, bv[i as int].price, true));
                        }
                    }
                    scanning = false;
                }
            }
            i = i + 1;
        }
    }
    trades
}

/// No price in a queue's unspent orders beats `price` when none in the
/// queue does.
proof fn lemma_unspent_keeps_bound(queue: Seq<OrderView>, price: nat, descending: bool)
    requires
        forall|k: int| 0 <= k < queue.len() ==> !better(price, (#[trigger] queue[k]).price, descending),
    ensures
        forall|x: int|
            0 <= x < unspent(queue).len() ==> !better(
                price,
                (#[trigger] unspent(queue)[x]).price,
                descending,
            ),
    decreases queue.len(),
{
    if queue.len() > 0 {
        let front = queue.drop_last();
        assert forall|k: int| 0 <= k < front.len() implies !better(
            price,
            (#[trigger] front[k]).price,
            descending,
        ) by {
            assert(front[k] == queue[k]);
        }
        lemma_unspent_keeps_bound(front, price, descending);
        assert(!better(price, queue[queue.len() - 1].price, descending));
        assert forall|x: int| 0 <= x < unspent(queue).len() implies !better(
            price,
            (#[trigger] unspent(queue)[x]).price,
            descending,
        ) by {
            if x < unspent(front).len() {
                assert(unspent(queue)[x] == unspent(front)[x]);
            }
        }
    }
}

/// Dropping the spent orders of a sorted queue leaves a sorted queue
/// without spent orders.
pub proof fn lemma_unspent_keeps_sorted(queue: Seq<OrderView>, descending: bool)
    requires
        sorted(queue, descending),
    ensures
        sorted(unspent(queue), descending),
        forall|x: int| 0 <= x < unspent(queue).len() ==> !(#[trigger] unspent(queue)[x]).spent(),
    decreases queue.len(),
{
    if queue.len() > 0 {
        let front = queue.drop_last();
        assert forall|i: int, j: int| 0 <= i < j < front.len() implies !better(
            #[trigger] front[j].price,
            #[trigger] front[i].price,
            descending,
        ) by {
            assert(front[j] == queue[j] && front[i] == queue[i]);
        }
        lemma_unspent_keeps_sorted(front, descending);
        assert forall|k: int| 0 <= k < front.len() implies !better(
            queue.last().price,
            (#[trigger] front[k]).price,
            descending,
        ) by {
            assert(front[k] == queue[k]);
            assert(!better(queue[queue.len() - 1].price, queue[k].price, descending));
        }
        lemma_unspent_keeps_bound(front, queue.last().price, descending);
    }
}

/// Drops the spent orders of a queue and keeps the others in their order.
fn drop_spent(orders: Vec<Order>) -> (kept: Vec<Order>)
    ensures
        views(kept@) == unspent(views(orders@)),
{
    let mut kept: Vec<Order> = Vec::new();
    let mut i: usize = 0;
    let ghost queue = views(orders@);
    assert(queue.take(0) =~= Seq::<OrderView>::empty());
    assert(views(kept@) =~= Seq::<OrderView>::empty());
    while i < orders.len()
        invariant
            0 <= i <= orders.len(),
            queue == views(orders@),
            views(kept@) == unspent(queue.take(i as int)),
        decreases orders.len() - i,
    {
        let order = orders[i];
        let ghost before = views(kept@);
        proof {
            assert(queue.take(i + 1).drop_last() =~= queue.take(i as int));
            assert(queue.take(i + 1).last() == order@);
        }
        if order.get_quantity() > 0 {
            kept.push(order);
            assert(views(kept@) =~= before.push(order@));
        }
        i = i + 1;
    }
    assert(queue.take(i as int) =~= queue);
    kept
}

/// What a book is, as mathematical values.
pub struct StockView {
    /// The symbol by which the instrument is found.
    pub symbol: Seq<char>,
    /// The full name of the instrument.
    pub name: Seq<char>,
    /// The buy queue, best price first.
    pub buys: Seq<OrderView>,
    /// The sell queue, best price first.
    pub sells: Seq<OrderView>,
    /// The statistics of the trades made so far.
    pub ohlc: OhlcView,
}

impl StockView {
    /// Both queues are sorted, buys from the highest price down and sells
    /// from the lowest price up, and every order holds numbers that fit.
    pub open spec fn well_formed(self) -> bool {
        &&& sorted(self.buys, true)
        &&& sorted(self.sells, false)
        &&& all_fit(self.buys)
        &&& all_fit(self.sells)
    }

    /// Neither queue holds a spent order.
    pub open spec fn no_spent_orders(self) -> bool {
        &&& forall|i: int| 0 <= i < self.buys.len() ==> !(#[trigger] self.buys[i]).spent()
        &&& forall|i: int| 0 <= i < self.sells.len() ==> !(#[trigger] self.sells[i]).spent()
    }

    /// The book after one matching cycle: the statistics have taken in the
    /// price of every fill, and the spent orders have left the queues.
    pub open spec fn resolved(self) -> StockView {
        let outcome = matching(self.buys, self.sells);
        StockView {
            buys: unspent(outcome.buys),
            sells: unspent(outcome.sells),
            ohlc: self.ohlc.record_all(fill_prices(outcome.fills)),
            ..self
        }
    }

    /// The trades that one matching cycle on the book makes, first to last.
    pub open spec fn trades(self) -> Seq<Trade> {
        trades_of(matching(self.buys, self.sells).fills, self.buys, self.sells)
    }
}

/// Holds details for an instrument and its orders.
pub struct Stock {
    symbol: String,
    name: String,
    buy_orders: Vec<Order>,
    sell_orders: Vec<Order>,
    ohlc: Ohlc,
}

impl View for Stock {
    type V = StockView;

    closed spec fn view(&self) -> StockView {
        StockView {
            symbol: self.symbol@,
            name: self.name@,
            buys: views(self.buy_orders@),
            sells: views(self.sell_orders@),
            ohlc: self.ohlc@,
        }
    }
}

impl Stock {
    #[verifier::type_invariant]
    spec fn queues_sorted(self) -> bool {
        self@.well_formed()
    }

    /// Creates a book with the given symbol and name and no orders.
    pub fn new(symbol: &str, name: &str) -> (stock: Stock)
        ensures
            stock@ == (StockView {
                symbol: symbol@,
                name: name@,
                buys: Seq::empty(),
                sells: Seq::empty(),
                ohlc: OhlcView::blank(),
            }),
            stock@.well_formed(),
            stock@.no_spent_orders(),
    {
        let stock = Stock {
            symbol: symbol.to_owned(),
            name: name.to_owned(),
            buy_orders: Vec::new(),
            sell_orders: Vec::new(),
            ohlc: Ohlc::new(),
        };
        assert(stock@.buys =~= Seq::empty());
        assert(stock@.sells =~= Seq::empty());
        stock
    }

    /// Returns the symbol of the instrument.
    pub fn get_symbol(&self) -> (symbol: &str)
        ensures
            symbol@ == self@.symbol,
    {
        self.symbol.as_str()
    }

    /// Returns the name of the instrument.
    pub fn get_name(&self) -> (name: &str)
        ensures
            name@ == self@.name,
    {
        self.name.as_str()
    }

    /// Adds a buy order: it comes to rest behind every order whose price is
    /// as high or higher, and no other order moves.
    pub fn add_buy_order(&mut self, order: Order)
        ensures
            final(self)@ == (StockView {
                buys: place(old(self)@.buys, order@, true),
                ..old(self)@
            }),
            old(self)@.well_formed(),
            final(self)@.well_formed(),
            old(self)@.no_spent_orders() && !order@.spent() ==> final(self)@.no_spent_orders(),
    {
        proof {
            use_type_invariant(&*self);
            lemma_sort_after_push(self@.buys, order@, true);
            lemma_place_keeps_sorted(self@.buys, order@, true);
            lemma_slot_splits(self@.buys, order@.price, true);
        }
        let mut orders: Vec<Order> = Vec::new();
        let ghost before = self@.buys;
        core::mem::swap(&mut self.buy_orders, &mut orders);
        orders.push(order);
        assert(views(orders@) =~= before.push(order@));
        let queue = sort_orders(orders, true);
        proof {
            lemma_views_fit(queue@);
        }
        self.buy_orders = queue;
    }

    /// Adds a sell order: it comes to rest behind every order whose price is
    /// as low or lower, and no other order moves.
    pub fn add_sell_order(&mut self, order: Order)
        ensures
            final(self)@ == (StockView {
                sells: place(old(self)@.sells, order@, false),
                ..old(self)@
            }),
            old(self)@.well_formed(),
            final(self)@.well_formed(),
            old(self)@.no_spent_orders() && !order@.spent() ==> final(self)@.no_spent_orders(),
    {
        proof {
            use_type_invariant(&*self);
            lemma_sort_after_push(self@.sells, order@, false);
            lemma_place_keeps_sorted(self@.sells, order@, false);
            lemma_slot_splits(self@.sells, order@.price, false);
        }
        let mut orders: Vec<Order> = Vec::new();
        let ghost before = self@.sells;
        core::mem::swap(&mut self.sell_orders, &mut orders);
        orders.push(order);
        assert(views(orders@) =~= before.push(order@));
        let queue = sort_orders(orders, false);
        proof {
            lemma_views_fit(queue@);
        }
        self.sell_orders = queue;
    }

    /// Returns the depth of the buy queue: its highest price levels, highest
    /// first, each with the total quantity resting at it.
    pub fn get_buy_orders(&self) -> (report: Vec<(usize, u128)>)
        ensures
            level_views(report@) == depth(self@.buys),
            self@.well_formed(),
    {
        proof {
            use_type_invariant(self);
        }
        queried_levels(&self.buy_orders)
    }

    /// Returns the depth of the sell queue: its lowest price levels, lowest
    /// first, each with the total quantity resting at it.
    pub fn get_sell_orders(&self) -> (report: Vec<(usize, u128)>)
        ensures
            level_views(report@) == depth(self@.sells),
            self@.well_formed(),
    {
        proof {
            use_type_invariant(self);
        }
        queried_levels(&self.sell_orders)
    }

    /// Runs one matching cycle: pairs the buy queue against the sell queue,
    /// records each execution price, drops the spent orders and returns the
    /// trades in the order in which they were made.
    pub fn resolve(&mut self) -> (trades: Vec<Trade>)
        ensures
            final(self)@ == old(self)@.resolved(),
            trades@ == old(self)@.trades(),
            old(self)@.well_formed(),
            final(self)@.well_formed(),
            final(self)@.no_spent_orders(),
    {
        proof {
            use_type_invariant(&*self);
        }
        let mut buys: Vec<Order> = Vec::new();
        let mut sells: Vec<Order> = Vec::new();
        core::mem::swap(&mut self.buy_orders, &mut buys);
        core::mem::swap(&mut self.sell_orders, &mut sells);
        let mut ohlc = self.ohlc;
        let trades = match_orders(&mut buys, &mut sells, &mut ohlc);
        self.ohlc = ohlc;
        proof {
            lemma_unspent_keeps_sorted(views(buys@), true);
            lemma_unspent_keeps_sorted(views(sells@), false);
        }
        let buys = drop_spent(buys);
        let sells = drop_spent(sells);
        proof {
            lemma_views_fit(buys@);
            lemma_views_fit(sells@);
        }
        self.buy_orders = buys;
        self.sell_orders = sells;
        trades
    }

    /// Returns the open, high, low and close prices of the trades made so
    /// far, each unset until the first trade.
    pub fn get_ohlc(&self) -> (prices: (Option<usize>, Option<usize>, Option<usize>, Option<usize>))
        ensures
            price_view(prices.0) == self@.ohlc.open,
            price_view(prices.1) == self@.ohlc.high,
            price_view(prices.2) == self@.ohlc.low,
            price_view(prices.3) == self@.ohlc.close,
            self@.ohlc.consistent(),
    {
        self.ohlc.get()
    }
}

/// A cycle keeps prices in place, so sorted queues stay sorted.
proof fn lemma_cycle_keeps_sorted(buys: Seq<OrderView>, sells: Seq<OrderView>)
    requires
        sorted(buys, true),
        sorted(sells, false),
    ensures
        sorted(matching(buys, sells).buys, true),
        sorted(matching(buys, sells).sells, false),
{
    let outcome = matching(buys, sells);
    lemma_cycle_only_drains(buys, sells, 0, 0);
    assert forall|x: int, y: int| 0 <= x < y < outcome.buys.len() implies !better(
        #[trigger] outcome.buys[y].price,
        #[trigger] outcome.buys[x].price,
        true,
    ) by {
        assert(!better(buys[y].price, buys[x].price, true));
    }
    assert forall|x: int, y: int| 0 <= x < y < outcome.sells.len() implies !better(
        #[trigger] outcome.sells[y].price,
        #[trigger] outcome.sells[x].price,
        false,
    ) by {
        assert(!better(sells[y].price, sells[x].price, false));
    }
}

/// After a matching cycle both queues are sorted and hold no spent order.
pub proof fn lemma_resolved_is_sorted_and_unspent(book: StockView)
    requires
        book.well_formed(),
    ensures
        book.resolved().well_formed(),
        book.resolved().no_spent_orders(),
{
    let outcome = matching(book.buys, book.sells);
    let after = book.resolved();
    lemma_cycle_keeps_sorted(book.buys, book.sells);
    lemma_unspent_keeps_sorted(outcome.buys, true);
    lemma_unspent_keeps_sorted(outcome.sells, false);
    lemma_cycle_only_drains(book.buys, book.sells, 0, 0);
    assert forall|x: int| 0 <= x < after.buys.len() implies (#[trigger] after.buys[x]).fits() by {
        let k = lemma_unspent_comes_from_queue(outcome.buys, x);
        assert(drained(book.buys[k], outcome.buys[k]));
        assert(book.buys[k].fits());
    }
    assert forall|x: int| 0 <= x < after.sells.len() implies (#[trigger] after.sells[x]).fits() by {
        let k = lemma_unspent_comes_from_queue(outcome.sells, x);
        assert(drained(book.sells[k], outcome.sells[k]));
        assert(book.sells[k].fits());
    }
}

/// A matching cycle that makes no trade on a book without spent orders
/// leaves the book as it was.
pub proof fn lemma_quiet_resolve_changes_nothing(book: StockView)
    requires
        book.no_spent_orders(),
        book.trades().len() == 0,
    ensures
        book.resolved() == book,
{
    lemma_no_fill_no_change(book.buys, book.sells);
    lemma_nothing_spent_nothing_dropped(book.buys);
    lemma_nothing_spent_nothing_dropped(book.sells);
    assert(fill_prices(matching(book.buys, book.sells).fills).len() == 0);
}

/// Resolving is idempotent: right after a matching cycle a second one
/// makes no trade and leaves the book as the first one left it.
pub proof fn lemma_resolve_is_idempotent(book: StockView)
    requires
        book.well_formed(),
    ensures
        book.resolved().trades().len() == 0,
        book.resolved().resolved() == book.resolved(),
{
    let outcome = matching(book.buys, book.sells);
    let after = book.resolved();
    lemma_resolved_is_sorted_and_unspent(book);
    lemma_cycle_uncrosses(book.buys, book.sells);
    assert forall|x: int, y: int|
        0 <= x < after.buys.len() && 0 <= y < after.sells.len() && !(
        #[trigger] after.buys[x]).spent() && !(#[trigger] after.sells[y]).spent() implies after.buys[x].price
        < after.sells[y].price by {
        let k = lemma_unspent_comes_from_queue(outcome.buys, x);
        let l = lemma_unspent_comes_from_queue(outcome.sells, y);
        assert(!outcome.buys[k].spent() && !outcome.sells[l].spent());
    }
    lemma_uncrossed_book_is_quiet(after.buys, after.sells);
    lemma_quiet_resolve_changes_nothing(after);
}

} // verus!
