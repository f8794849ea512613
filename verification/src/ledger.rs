//! What the trades of a matching cycle add up to: who traded, at what price,
//! and how the quantities that rest in the book went down by what was traded.

use vstd::prelude::*;
use crate::matching::{
    execution_price, feasible, lemma_cycle_only_drains, lemma_fills_are_positive,
    lemma_fills_feasible_from, lemma_unspent_comes_from_queue, drained, fill_of, match_from,
    matching, trade_of, trades_of, unspent, Fill,
};
use crate::order::OrderView;
use crate::queue::all_fit;
use crate::stock::StockView;
use crate::trade::Trade;

verus! {

/// Whether `trade` is the record of an execution of `buy` against `sell`: it
/// names their creators, its price is the limit of the earlier of the two and
/// lies between the limits, and its quantity is no more than either holds.
pub open spec fn records(trade: Trade, buy: OrderView, sell: OrderView) -> bool {
    &&& trade.buyer_id == buy.creator_id
    &&& trade.seller_id == sell.creator_id
    &&& trade.price == execution_price(buy, sell)
    &&& buy.price >= trade.price >= sell.price
    &&& trade.quantity <= buy.quantity
    &&& trade.quantity <= sell.quantity
}

/// Whether a creator counts for `who`: every creator where `who` names
/// none, else the one that it names.
pub open spec fn counts(creator: nat, who: Option<nat>) -> bool {
    who is None || who == Some(creator)
}

/// The quantity that rests in a queue for `who`: for everybody, or for one
/// creator.
pub open spec fn held(queue: Seq<OrderView>, who: Option<nat>) -> nat
    decreases queue.len(),
{
    if queue.len() == 0 {
        0
    } else {
        let last: nat = if counts(queue.last().creator_id, who) {
            queue.last().quantity
        } else {
            0
        };
        held(queue.drop_last(), who) + last
    }
}

/// The quantity that `who` bought in the trades.
pub open spec fn bought_in(trades: Seq<Trade>, who: Option<nat>) -> nat
    decreases trades.len(),
{
    if trades.len() == 0 {
        0
    } else {
        let first: nat = if counts(trades[0].buyer_id as nat, who) {
            trades[0].quantity as nat
        } else {
            0
        };
        first + bought_in(trades.drop_first(), who)
    }
}

/// The quantity that `who` sold in the trades.
pub open spec fn sold_in(trades: Seq<Trade>, who: Option<nat>) -> nat
    decreases trades.len(),
{
    if trades.len() == 0 {
        0
    } else {
        let first: nat = if counts(trades[0].seller_id as nat, who) {
            trades[0].quantity as nat
        } else {
            0
        };
        first + sold_in(trades.drop_first(), who)
    }
}

/// The order of `queue` that a fill names on one side.
spec fn side(fill: Fill, buying: bool) -> int {
    if buying {
        fill.buy
    } else {
        fill.sell
    }
}

/// The quantity that the fills move for `who` on one side, the creators
/// taken from `queue`.
spec fn filled_for(fills: Seq<Fill>, queue: Seq<OrderView>, buying: bool, who: Option<nat>) -> nat
    decreases fills.len(),
{
    if fills.len() == 0 {
        0
    } else {
        let first: nat = if counts(queue[side(fills[0], buying)].creator_id, who) {
            fills[0].quantity
        } else {
            0
        };
        first + filled_for(fills.drop_first(), queue, buying, who)
    }
}

/// Every fill names orders that the queues have.
spec fn in_range(fills: Seq<Fill>, buys: int, sells: int) -> bool {
    forall|k: int|
        0 <= k < fills.len() ==> 0 <= (#[trigger] fills[k]).buy < buys && 0 <= fills[k].sell
            < sells
}

proof fn lemma_held_after_update(queue: Seq<OrderView>, i: int, order: OrderView, who: Option<nat>)
    requires
        0 <= i < queue.len(),
        order.creator_id == queue[i].creator_id,
    ensures
        held(queue.update(i, order), who) + (if counts(order.creator_id, who) {
            queue[i].quantity
        } else {
            0
        }) == held(queue, who) + (if counts(order.creator_id, who) {
            order.quantity
        } else {
            0
        }),
    decreases queue.len(),
{
    let changed = queue.update(i, order);
    if i == queue.len() - 1 {
        assert(changed.drop_last() =~= queue.drop_last());
    } else {
        assert(changed.drop_last() =~= queue.drop_last().update(i, order));
        assert(changed.last() == queue.last());
        assert(queue.drop_last()[i] == queue[i]);
        lemma_held_after_update(queue.drop_last(), i, order, who);
    }
}

proof fn lemma_filled_for_same_owners(
    fills: Seq<Fill>,
    first: Seq<OrderView>,
    second: Seq<OrderView>,
    buying: bool,
    who: Option<nat>,
)
    requires
        first.len() == second.len(),
        forall|x: int| 0 <= x < first.len() ==> (#[trigger] first[x]).creator_id == second[x].creator_id,
        forall|k: int| 0 <= k < fills.len() ==> 0 <= side(#[trigger] fills[k], buying) < first.len(),
    ensures
        filled_for(fills, first, buying, who) == filled_for(fills, second, buying, who),
    decreases fills.len(),
{
    if fills.len() > 0 {
        let rest = fills.drop_first();
        assert forall|k: int| 0 <= k < rest.len() implies 0 <= side(#[trigger] rest[k], buying)
            < first.len() by {
            assert(rest[k] == fills[k + 1]);
        }
        lemma_filled_for_same_owners(rest, first, second, buying, who);
        assert(0 <= side(fills[0], buying) < first.len());
    }
}

proof fn lemma_held_from(
    buys: Seq<OrderView>,
    sells: Seq<OrderView>,
    i: int,
    j: int,
    who: Option<nat>,
)
    ensures
        held(buys, who) == held(match_from(buys, sells, i, j).buys, who) + filled_for(
            match_from(buys, sells, i, j).fills,
            buys,
            true,
            who,
        ),
        held(sells, who) == held(match_from(buys, sells, i, j).sells, who) + filled_for(
            match_from(buys, sells, i, j).fills,
            sells,
            false,
            who,
        ),
    decreases buys.len() - i + sells.len() - j,
{
    let outcome = match_from(buys, sells, i, j);
    if i < 0 || j < 0 || i >= buys.len() || j >= sells.len() {
        assert(outcome.fills.len() == 0);
    } else if sells[j].spent() {
        lemma_held_from(buys, sells, i, j + 1, who);
        assert(outcome == match_from(buys, sells, i, j + 1));
    } else if buys[i].price < sells[j].price {
        assert(outcome.fills.len() == 0);
    } else {
        let fill = fill_of(buys, sells, i, j);
        let buys_after = buys.update(i, buys[i].filled(fill.quantity));
        let sells_after = sells.update(j, sells[j].filled(fill.quantity));
        let rest = if buys_after[i].spent() {
            lemma_held_from(buys_after, sells_after, i + 1, j, who);
            lemma_fills_feasible_from(buys_after, sells_after, i + 1, j);
            match_from(buys_after, sells_after, i + 1, j)
        } else {
            lemma_held_from(buys_after, sells_after, i, j + 1, who);
            lemma_fills_feasible_from(buys_after, sells_after, i, j + 1);
            match_from(buys_after, sells_after, i, j + 1)
        };
        assert(outcome.fills.drop_first() =~= rest.fills);
        assert(outcome.fills[0] == fill);
        assert forall|k: int| 0 <= k < rest.fills.len() implies 0 <= side(
            #[trigger] rest.fills[k],
            true,
        ) < buys_after.len() && 0 <= side(rest.fills[k], false) < sells_after.len() by {
            assert(feasible(rest.fills[k], buys_after, sells_after));
        }
        lemma_filled_for_same_owners(rest.fills, buys_after, buys, true, who);
        lemma_filled_for_same_owners(rest.fills, sells_after, sells, false, who);
        lemma_held_after_update(buys, i, buys[i].filled(fill.quantity), who);
        lemma_held_after_update(sells, j, sells[j].filled(fill.quantity), who);
    }
}

/// Dropping the spent orders of a queue takes no quantity out of it.
proof fn lemma_unspent_holds_the_same(queue: Seq<OrderView>, who: Option<nat>)
    ensures
        held(unspent(queue), who) == held(queue, who),
    decreases queue.len(),
{
    if queue.len() > 0 {
        lemma_unspent_holds_the_same(queue.drop_last(), who);
        if !queue.last().spent() {
            assert(unspent(queue).drop_last() =~= unspent(queue.drop_last()));
        }
    }
}

proof fn lemma_trades_add_up_as_fills(
    fills: Seq<Fill>,
    buys: Seq<OrderView>,
    sells: Seq<OrderView>,
    who: Option<nat>,
)
    requires
        all_fit(buys),
        all_fit(sells),
        forall|k: int| 0 <= k < fills.len() ==> feasible(#[trigger] fills[k], buys, sells),
    ensures
        bought_in(trades_of(fills, buys, sells), who) == filled_for(fills, buys, true, who),
        sold_in(trades_of(fills, buys, sells), who) == filled_for(fills, sells, false, who),
    decreases fills.len(),
{
    let trades = trades_of(fills, buys, sells);
    if fills.len() > 0 {
        let rest = fills.drop_first();
        assert forall|k: int| 0 <= k < rest.len() implies feasible(
            #[trigger] rest[k],
            buys,
            sells,
        ) by {
            assert(rest[k] == fills[k + 1]);
        }
        lemma_trades_add_up_as_fills(rest, buys, sells, who);
        assert(trades.drop_first() =~= trades_of(rest, buys, sells));
        assert(feasible(fills[0], buys, sells));
        assert(buys[fills[0].buy].fits());
        assert(sells[fills[0].sell].fits());
        assert(trades[0] == trade_of(fills[0], buys, sells));
    }
}

proof fn lemma_all_buy_what_all_sell(trades: Seq<Trade>)
    ensures
        bought_in(trades, None) == sold_in(trades, None),
    decreases trades.len(),
{
    if trades.len() > 0 {
        lemma_all_buy_what_all_sell(trades.drop_first());
    }
}

/// Feasibility of the trades: every trade of a matching cycle records an
/// execution of a buy order of the book against a sell order of the book,
/// those that its fill names. Where the book holds no spent order, every
/// trade moves a quantity of at least 1.
pub proof fn lemma_trades_are_feasible(book: StockView)
    requires
        book.well_formed(),
    ensures
        book.trades().len() == matching(book.buys, book.sells).fills.len(),
        forall|k: int|
            0 <= k < book.trades().len() ==> {
                let fill = matching(book.buys, book.sells).fills[k];
                &&& 0 <= fill.buy < book.buys.len()
                &&& 0 <= fill.sell < book.sells.len()
                &&& records(#[trigger] book.trades()[k], book.buys[fill.buy], book.sells[fill.sell])
            },
        book.no_spent_orders() ==> forall|k: int|
            0 <= k < book.trades().len() ==> (#[trigger] book.trades()[k]).quantity >= 1,
{
    let fills = matching(book.buys, book.sells).fills;
    lemma_fills_feasible_from(book.buys, book.sells, 0, 0);
    assert forall|k: int| 0 <= k < book.trades().len() implies {
        let fill = fills[k];
        &&& 0 <= fill.buy < book.buys.len()
        &&& 0 <= fill.sell < book.sells.len()
        &&& records(#[trigger] book.trades()[k], book.buys[fill.buy], book.sells[fill.sell])
    } by {
        let fill = fills[k];
        assert(feasible(fill, book.buys, book.sells));
        assert(book.buys[fill.buy].fits());
        assert(book.sells[fill.sell].fits());
        assert(book.trades()[k] == trade_of(fill, book.buys, book.sells));
    }
    if book.no_spent_orders() {
        lemma_fills_are_positive(book.buys, book.sells);
        assert forall|k: int| 0 <= k < book.trades().len() implies (
        #[trigger] book.trades()[k]).quantity >= 1 by {
            let fill = fills[k];
            assert(feasible(fill, book.buys, book.sells));
            assert(book.buys[fill.buy].fits());
            assert(book.trades()[k] == trade_of(fill, book.buys, book.sells));
            assert(fill.quantity >= 1);
        }
    }
}

/// Conservation: what rests in each queue goes down by exactly what the
/// trades of the cycle moved, for everybody together (`who` names none) and
/// for every creator alone; and as much was bought as was sold.
pub proof fn lemma_resolve_conserves_quantity(book: StockView, who: Option<nat>)
    requires
        book.well_formed(),
    ensures
        held(book.buys, who) == held(book.resolved().buys, who) + bought_in(book.trades(), who),
        held(book.sells, who) == held(book.resolved().sells, who) + sold_in(book.trades(), who),
        bought_in(book.trades(), None) == sold_in(book.trades(), None),
{
    let outcome = matching(book.buys, book.sells);
    lemma_held_from(book.buys, book.sells, 0, 0, who);
    lemma_unspent_holds_the_same(outcome.buys, who);
    lemma_unspent_holds_the_same(outcome.sells, who);
    lemma_fills_feasible_from(book.buys, book.sells, 0, 0);
    lemma_trades_add_up_as_fills(outcome.fills, book.buys, book.sells, who);
    lemma_all_buy_what_all_sell(book.trades());
}

/// Every order that rests in the book after a matching cycle rested in it
/// before, at the place that the lemma gives, with the same creator, price
/// and time and with no more quantity.
pub proof fn lemma_survivor_was_resting(book: StockView, buying: bool, x: int) -> (k: int)
    requires
        0 <= x < (if buying {
            book.resolved().buys
        } else {
            book.resolved().sells
        }).len(),
    ensures
        0 <= k < (if buying {
            book.buys
        } else {
            book.sells
        }).len(),
        drained(
            (if buying {
                book.buys
            } else {
                book.sells
            })[k],
            (if buying {
                book.resolved().buys
            } else {
                book.resolved().sells
            })[x],
        ),
{
    let outcome = matching(book.buys, book.sells);
    lemma_cycle_only_drains(book.buys, book.sells, 0, 0);
    if buying {
        let k = lemma_unspent_comes_from_queue(outcome.buys, x);
        assert(drained(book.buys[k], outcome.buys[k]));
        k
    } else {
        let k = lemma_unspent_comes_from_queue(outcome.sells, x);
        assert(drained(book.sells[k], outcome.sells[k]));
        k
    }
}

} // verus!
