//! The matching of one instrument's buy queue against its sell queue, as
//! mathematics: which fills a matching cycle makes, what it leaves of each
//! order, and what holds of every such cycle.

use vstd::prelude::*;
use crate::order::OrderView;
use crate::queue::{better, sorted};
use crate::trade::Trade;

verus! {

/// One execution of a buy order against a sell order.
pub struct Fill {
    /// Position of the buy order in the buy queue.
    pub buy: int,
    /// Position of the sell order in the sell queue.
    pub sell: int,
    /// Execution price in hundredths.
    pub price: nat,
    /// Quantity that changed hands.
    pub quantity: nat,
}

/// The outcome of a matching cycle: the two queues with what is left of each
/// order, spent orders still in place, and the fills in the order in which
/// they were made.
pub struct Matching {
    /// The buy queue after the cycle.
    pub buys: Seq<OrderView>,
    /// The sell queue after the cycle.
    pub sells: Seq<OrderView>,
    /// The fills of the cycle, first to last.
    pub fills: Seq<Fill>,
}

/// The price at which two crossing orders execute: the limit of the order
/// that was submitted earlier, the buyer's when neither was.
pub open spec fn execution_price(buy: OrderView, sell: OrderView) -> nat {
    if sell.time.before(buy.time) {
        sell.price
    } else {
        buy.price
    }
}

/// The quantity that two crossing orders exchange: all that the smaller one
/// has left.
pub open spec fn execution_quantity(buy: OrderView, sell: OrderView) -> nat {
    if buy.quantity <= sell.quantity {
        buy.quantity
    } else {
        sell.quantity
    }
}

/// The fill that the buy order at `i` and the sell order at `j` make.
pub open spec fn fill_of(buys: Seq<OrderView>, sells: Seq<OrderView>, i: int, j: int) -> Fill {
    Fill {
        buy: i,
        sell: j,
        price: execution_price(buys[i], sells[j]),
        quantity: execution_quantity(buys[i], sells[j]),
    }
}

/// The matching cycle from the buy order at `i` and the sell order at `j`
/// on: a spent sell order is passed over; the two orders trade while the
/// buyer's limit reaches the seller's; the buyer gives way to the next one
/// once it is spent; the cycle ends when a queue is used up or the limits
/// no longer cross.
pub open spec fn match_from(buys: Seq<OrderView>, sells: Seq<OrderView>, i: int, j: int) -> Matching
    decreases buys.len() - i + sells.len() - j,
{
    if i < 0 || j < 0 || i >= buys.len() || j >= sells.len() {
        Matching { buys, sells, fills: Seq::empty() }
    } else if sells[j].spent() {
        match_from(buys, sells, i, j + 1)
    } else if buys[i].price < sells[j].price {
        Matching { buys, sells, fills: Seq::empty() }
    } else {
        let fill = fill_of(buys, sells, i, j);
        let buys_after = buys.update(i, buys[i].filled(fill.quantity));
        let sells_after = sells.update(j, sells[j].filled(fill.quantity));
        let rest = if buys_after[i].spent() {
            match_from(buys_after, sells_after, i + 1, j)
        } else {
            match_from(buys_after, sells_after, i, j + 1)
        };
        Matching { buys: rest.buys, sells: rest.sells, fills: seq![fill] + rest.fills }
    }
}

/// The matching cycle of a whole book.
pub open spec fn matching(buys: Seq<OrderView>, sells: Seq<OrderView>) -> Matching {
    match_from(buys, sells, 0, 0)
}

/// The orders of a queue that are not spent, in their order.
pub open spec fn unspent(queue: Seq<OrderView>) -> Seq<OrderView>
    decreases queue.len(),
{
    if queue.len() == 0 {
        queue
    } else if queue.last().spent() {
        unspent(queue.drop_last())
    } else {
        unspent(queue.drop_last()).push(queue.last())
    }
}

/// The record of a fill between orders of the two queues.
pub open spec fn trade_of(fill: Fill, buys: Seq<OrderView>, sells: Seq<OrderView>) -> Trade {
    Trade {
        buyer_id: buys[fill.buy].creator_id as usize,
        seller_id: sells[fill.sell].creator_id as usize,
        price: fill.price as usize,
        quantity: fill.quantity as usize,
    }
}

/// The records of the fills, first to last.
pub open spec fn trades_of(fills: Seq<Fill>, buys: Seq<OrderView>, sells: Seq<OrderView>) -> Seq<
    Trade,
> {
    fills.map_values(|fill: Fill| trade_of(fill, buys, sells))
}

/// The prices of the fills, first to last.
pub open spec fn fill_prices(fills: Seq<Fill>) -> Seq<nat> {
    fills.map_values(|fill: Fill| fill.price)
}

/// The total quantity that the fills give to the buy order at `i`.
pub open spec fn bought(fills: Seq<Fill>, i: int) -> nat
    decreases fills.len(),
{
    if fills.len() == 0 {
        0
    } else {
        let first: nat = if fills[0].buy == i {
            fills[0].quantity
        } else {
            0
        };
        first + bought(fills.drop_first(), i)
    }
}

/// The total quantity that the fills take from the sell order at `j`.
pub open spec fn sold(fills: Seq<Fill>, j: int) -> nat
    decreases fills.len(),
{
    if fills.len() == 0 {
        0
    } else {
        let first: nat = if fills[0].sell == j {
            fills[0].quantity
        } else {
            0
        };
        first + sold(fills.drop_first(), j)
    }
}

/// `after` is `before` with some of its quantity filled and nothing else
/// changed.
pub open spec fn drained(before: OrderView, after: OrderView) -> bool {
    &&& after.creator_id == before.creator_id
    &&& after.price == before.price
    &&& after.time == before.time
    &&& after.quantity <= before.quantity
}

/// Every order before position `upto` is spent.
pub open spec fn spent_before(queue: Seq<OrderView>, upto: int) -> bool {
    forall|k: int| 0 <= k < upto && k < queue.len() ==> (#[trigger] queue[k]).spent()
}

/// No unspent buy order reaches the price of an unspent sell order.
pub open spec fn uncrossed(buys: Seq<OrderView>, sells: Seq<OrderView>) -> bool {
    forall|x: int, y: int|
        0 <= x < buys.len() && 0 <= y < sells.len() && !(#[trigger] buys[x]).spent() && !(
        #[trigger] sells[y]).spent() ==> buys[x].price < sells[y].price
}

/// A cycle leaves every order in its place with its owner, price and time,
/// and with no more quantity than it had.
pub proof fn lemma_cycle_only_drains(buys: Seq<OrderView>, sells: Seq<OrderView>, i: int, j: int)
    ensures
        match_from(buys, sells, i, j).buys.len() == buys.len(),
        match_from(buys, sells, i, j).sells.len() == sells.len(),
        forall|x: int|
            0 <= x < buys.len() ==> drained(
                buys[x],
                #[trigger] match_from(buys, sells, i, j).buys[x],
            ),
        forall|y: int|
            0 <= y < sells.len() ==> drained(
                sells[y],
                #[trigger] match_from(buys, sells, i, j).sells[y],
            ),
    decreases buys.len() - i + sells.len() - j,
{
    if i < 0 || j < 0 || i >= buys.len() || j >= sells.len() {
    } else if sells[j].spent() {
        lemma_cycle_only_drains(buys, sells, i, j + 1);
    } else if buys[i].price < sells[j].price {
    } else {
        let fill = fill_of(buys, sells, i, j);
        let buys_after = buys.update(i, buys[i].filled(fill.quantity));
        let sells_after = sells.update(j, sells[j].filled(fill.quantity));
        let outcome = match_from(buys, sells, i, j);
        if buys_after[i].spent() {
            lemma_cycle_only_drains(buys_after, sells_after, i + 1, j);
        } else {
            lemma_cycle_only_drains(buys_after, sells_after, i, j + 1);
        }
        assert forall|x: int| 0 <= x < buys.len() implies drained(
            buys[x],
            #[trigger] outcome.buys[x],
        ) by {
            assert(drained(buys_after[x], outcome.buys[x]));
        }
        assert forall|y: int| 0 <= y < sells.len() implies drained(
            sells[y],
            #[trigger] outcome.sells[y],
        ) by {
            assert(drained(sells_after[y], outcome.sells[y]));
        }
    }
}

/// Whether a fill is one that the two orders it names may make: their
/// limits cross, the price is the limit of the earlier of the two and so
/// lies between the limits, and the quantity is no more than either holds.
pub open spec fn feasible(fill: Fill, buys: Seq<OrderView>, sells: Seq<OrderView>) -> bool {
    &&& 0 <= fill.buy < buys.len()
    &&& 0 <= fill.sell < sells.len()
    &&& fill.price == execution_price(buys[fill.buy], sells[fill.sell])
    &&& buys[fill.buy].price >= fill.price >= sells[fill.sell].price
    &&& fill.quantity <= buys[fill.buy].quantity
    &&& fill.quantity <= sells[fill.sell].quantity
}

/// Every fill of a cycle that starts anywhere in the queues is feasible.
pub proof fn lemma_fills_feasible_from(
    buys: Seq<OrderView>,
    sells: Seq<OrderView>,
    i: int,
    j: int,
)
    ensures
        forall|k: int|
            0 <= k < match_from(buys, sells, i, j).fills.len() ==> feasible(
                #[trigger] match_from(buys, sells, i, j).fills[k],
                buys,
                sells,
            ),
    decreases buys.len() - i + sells.len() - j,
{
    if i < 0 || j < 0 || i >= buys.len() || j >= sells.len() {
        assert(match_from(buys, sells, i, j).fills.len() == 0);
    } else if sells[j].spent() {
        lemma_fills_feasible_from(buys, sells, i, j + 1);
        assert(match_from(buys, sells, i, j) == match_from(buys, sells, i, j + 1));
    } else if buys[i].price < sells[j].price {
        assert(match_from(buys, sells, i, j).fills.len() == 0);
    } else {
        let fill = fill_of(buys, sells, i, j);
        let buys_after = buys.update(i, buys[i].filled(fill.quantity));
        let sells_after = sells.update(j, sells[j].filled(fill.quantity));
        let outcome = match_from(buys, sells, i, j);
        let rest = if buys_after[i].spent() {
            lemma_fills_feasible_from(buys_after, sells_after, i + 1, j);
            match_from(buys_after, sells_after, i + 1, j)
        } else {
            lemma_fills_feasible_from(buys_after, sells_after, i, j + 1);
            match_from(buys_after, sells_after, i, j + 1)
        };
        assert forall|k: int| 0 <= k < outcome.fills.len() implies feasible(
            #[trigger] outcome.fills[k],
            buys,
            sells,
        ) by {
            if k > 0 {
                assert(outcome.fills[k] == rest.fills[k - 1]);
                assert(feasible(rest.fills[k - 1], buys_after, sells_after));
            }
        }
    }
}

/// Feasibility: every fill of a cycle executes at a price that the buyer's
/// limit reaches and that reaches the seller's limit, namely at the limit of
/// whichever of the two orders was submitted earlier.
pub proof fn lemma_fills_are_feasible(buys: Seq<OrderView>, sells: Seq<OrderView>)
    ensures
        forall|k: int|
            0 <= k < matching(buys, sells).fills.len() ==> feasible(
                #[trigger] matching(buys, sells).fills[k],
                buys,
                sells,
            ),
{
    lemma_fills_feasible_from(buys, sells, 0, 0);
}

proof fn lemma_conserved_from(buys: Seq<OrderView>, sells: Seq<OrderView>, i: int, j: int)
    ensures
        forall|x: int|
            0 <= x < buys.len() ==> (#[trigger] match_from(buys, sells, i, j).buys[x]).quantity
                + bought(match_from(buys, sells, i, j).fills, x) == buys[x].quantity,
        forall|y: int|
            0 <= y < sells.len() ==> (#[trigger] match_from(buys, sells, i, j).sells[y]).quantity
                + sold(match_from(buys, sells, i, j).fills, y) == sells[y].quantity,
    decreases buys.len() - i + sells.len() - j,
{
    lemma_cycle_only_drains(buys, sells, i, j);
    if i < 0 || j < 0 || i >= buys.len() || j >= sells.len() {
        assert(match_from(buys, sells, i, j).fills.len() == 0);
    } else if sells[j].spent() {
        lemma_conserved_from(buys, sells, i, j + 1);
        assert(match_from(buys, sells, i, j) == match_from(buys, sells, i, j + 1));
    } else if buys[i].price < sells[j].price {
        assert(match_from(buys, sells, i, j).fills.len() == 0);
    } else {
        let fill = fill_of(buys, sells, i, j);
        let buys_after = buys.update(i, buys[i].filled(fill.quantity));
        let sells_after = sells.update(j, sells[j].filled(fill.quantity));
        let outcome = match_from(buys, sells, i, j);
        let rest = if buys_after[i].spent() {
            lemma_conserved_from(buys_after, sells_after, i + 1, j);
            match_from(buys_after, sells_after, i + 1, j)
        } else {
            lemma_conserved_from(buys_after, sells_after, i, j + 1);
            match_from(buys_after, sells_after, i, j + 1)
        };
        assert(outcome.fills.drop_first() =~= rest.fills);
        assert(outcome.fills[0] == fill);
        assert forall|x: int| 0 <= x < buys.len() implies (#[trigger] outcome.buys[x]).quantity
            + bought(outcome.fills, x) == buys[x].quantity by {
            assert(rest.buys[x].quantity + bought(rest.fills, x) == buys_after[x].quantity);
        }
        assert forall|y: int| 0 <= y < sells.len() implies (#[trigger] outcome.sells[y]).quantity
            + sold(outcome.fills, y) == sells[y].quantity by {
            assert(rest.sells[y].quantity + sold(rest.fills, y) == sells_after[y].quantity);
        }
    }
}

/// Conservation: a cycle takes from each order exactly the quantity of the
/// fills that name it, and changes neither its price, its owner nor its
/// time.
pub proof fn lemma_quantities_are_conserved(buys: Seq<OrderView>, sells: Seq<OrderView>)
    ensures
        matching(buys, sells).buys.len() == buys.len(),
        matching(buys, sells).sells.len() == sells.len(),
        forall|x: int|
            0 <= x < buys.len() ==> {
                &&& drained(buys[x], #[trigger] matching(buys, sells).buys[x])
                &&& matching(buys, sells).buys[x].quantity + bought(
                    matching(buys, sells).fills,
                    x,
                ) == buys[x].quantity
            },
        forall|y: int|
            0 <= y < sells.len() ==> {
                &&& drained(sells[y], #[trigger] matching(buys, sells).sells[y])
                &&& matching(buys, sells).sells[y].quantity + sold(
                    matching(buys, sells).fills,
                    y,
                ) == sells[y].quantity
            },
{
    lemma_cycle_only_drains(buys, sells, 0, 0);
    lemma_conserved_from(buys, sells, 0, 0);
}

/// The fills name the orders of each queue from the head on, never going
/// back to an order once a later one was named.
pub open spec fn in_queue_order(fills: Seq<Fill>) -> bool {
    forall|k: int, l: int|
        0 <= k < l < fills.len() ==> (#[trigger] fills[k]).buy <= (#[trigger] fills[l]).buy
            && fills[k].sell <= fills[l].sell
}

/// Every order that rests ahead of an order named by a fill ends the cycle
/// spent.
pub open spec fn ahead_are_spent(outcome: Matching) -> bool {
    &&& forall|k: int, x: int|
        0 <= k < outcome.fills.len() && 0 <= x < (#[trigger] outcome.fills[k]).buy && x
            < outcome.buys.len() ==> (#[trigger] outcome.buys[x]).spent()
    &&& forall|k: int, y: int|
        0 <= k < outcome.fills.len() && 0 <= y < (#[trigger] outcome.fills[k]).sell && y
            < outcome.sells.len() ==> (#[trigger] outcome.sells[y]).spent()
}

proof fn lemma_priority_from(buys: Seq<OrderView>, sells: Seq<OrderView>, i: int, j: int)
    requires
        0 <= i,
        0 <= j,
        spent_before(buys, i),
        spent_before(sells, j),
    ensures
        forall|k: int|
            0 <= k < match_from(buys, sells, i, j).fills.len() ==> i <= (#[trigger] match_from(
                buys,
                sells,
                i,
                j,
            ).fills[k]).buy && j <= match_from(buys, sells, i, j).fills[k].sell,
        in_queue_order(match_from(buys, sells, i, j).fills),
        ahead_are_spent(match_from(buys, sells, i, j)),
    decreases buys.len() - i + sells.len() - j,
{
    let outcome = match_from(buys, sells, i, j);
    lemma_cycle_only_drains(buys, sells, i, j);
    if i >= buys.len() || j >= sells.len() {
        assert(outcome.fills.len() == 0);
    } else if sells[j].spent() {
        lemma_priority_from(buys, sells, i, j + 1);
        assert(outcome == match_from(buys, sells, i, j + 1));
    } else if buys[i].price < sells[j].price {
        assert(outcome.fills.len() == 0);
    } else {
        let fill = fill_of(buys, sells, i, j);
        let buys_after = buys.update(i, buys[i].filled(fill.quantity));
        let sells_after = sells.update(j, sells[j].filled(fill.quantity));
        assert(spent_before(buys_after, i)) by {
            assert forall|x: int| 0 <= x < i && x < buys_after.len() implies (
            #[trigger] buys_after[x]).spent() by {
                assert(buys[x].spent());
            }
        }
        assert(spent_before(sells_after, j)) by {
            assert forall|y: int| 0 <= y < j && y < sells_after.len() implies (
            #[trigger] sells_after[y]).spent() by {
                assert(sells[y].spent());
            }
        }
        let rest = if buys_after[i].spent() {
            assert(spent_before(buys_after, i + 1));
            lemma_priority_from(buys_after, sells_after, i + 1, j);
            lemma_cycle_only_drains(buys_after, sells_after, i + 1, j);
            match_from(buys_after, sells_after, i + 1, j)
        } else {
            assert(sells_after[j].spent());
            assert(spent_before(sells_after, j + 1));
            lemma_priority_from(buys_after, sells_after, i, j + 1);
            lemma_cycle_only_drains(buys_after, sells_after, i, j + 1);
            match_from(buys_after, sells_after, i, j + 1)
        };
        assert(outcome.fills[0] == fill);
        assert forall|k: int| 0 <= k < outcome.fills.len() implies i <= (
        #[trigger] outcome.fills[k]).buy && j <= outcome.fills[k].sell by {
            if k > 0 {
                assert(outcome.fills[k] == rest.fills[k - 1]);
            }
        }
        assert forall|k: int, l: int| 0 <= k < l < outcome.fills.len() implies (
        #[trigger] outcome.fills[k]).buy <= (#[trigger] outcome.fills[l]).buy
            && outcome.fills[k].sell <= outcome.fills[l].sell by {
            assert(outcome.fills[l] == rest.fills[l - 1]);
            if k > 0 {
                assert(outcome.fills[k] == rest.fills[k - 1]);
            }
        }
        assert forall|k: int, x: int|
            0 <= k < outcome.fills.len() && 0 <= x < (#[trigger] outcome.fills[k]).buy && x
                < outcome.buys.len() implies (#[trigger] outcome.buys[x]).spent() by {
            if k > 0 {
                assert(outcome.fills[k] == rest.fills[k - 1]);
                assert(rest.buys[x].spent());
            } else {
                assert(buys[x].spent());
                assert(drained(buys[x], outcome.buys[x]));
            }
        }
        assert forall|k: int, y: int|
            0 <= k < outcome.fills.len() && 0 <= y < (#[trigger] outcome.fills[k]).sell && y
                < outcome.sells.len() implies (#[trigger] outcome.sells[y]).spent() by {
            if k > 0 {
                assert(outcome.fills[k] == rest.fills[k - 1]);
                assert(rest.sells[y].spent());
            } else {
                assert(sells[y].spent());
                assert(drained(sells[y], outcome.sells[y]));
            }
        }
    }
}

/// Queue priority: a cycle fills the orders of each queue from the head
/// on. An order trades only once every order ahead of it is used up, and no
/// order trades again after one behind it has traded.
pub proof fn lemma_fills_follow_queue(buys: Seq<OrderView>, sells: Seq<OrderView>)
    ensures
        in_queue_order(matching(buys, sells).fills),
        ahead_are_spent(matching(buys, sells)),
{
    lemma_priority_from(buys, sells, 0, 0);
}

/// Price-time priority: in sorted queues, an order trades only once every
/// order of its side with a better price, and every order with the same
/// price that was added before it, is used up.
pub proof fn lemma_price_time_priority(buys: Seq<OrderView>, sells: Seq<OrderView>)
    requires
        sorted(buys, true),
        sorted(sells, false),
    ensures
        forall|k: int, x: int|
            0 <= k < matching(buys, sells).fills.len() && 0 <= x < buys.len() && (better(
                buys[x].price,
                buys[(#[trigger] matching(buys, sells).fills[k]).buy].price,
                true,
            ) || (buys[x].price == buys[matching(buys, sells).fills[k].buy].price && x < matching(
                buys,
                sells,
            ).fills[k].buy)) ==> (#[trigger] matching(buys, sells).buys[x]).spent(),
        forall|k: int, y: int|
            0 <= k < matching(buys, sells).fills.len() && 0 <= y < sells.len() && (better(
                sells[y].price,
                sells[(#[trigger] matching(buys, sells).fills[k]).sell].price,
                false,
            ) || (sells[y].price == sells[matching(buys, sells).fills[k].sell].price && y
                < matching(buys, sells).fills[k].sell)) ==> (#[trigger] matching(
                buys,
                sells,
            ).sells[y]).spent(),
{
    let outcome = matching(buys, sells);
    lemma_priority_from(buys, sells, 0, 0);
    lemma_fills_feasible_from(buys, sells, 0, 0);
    lemma_cycle_only_drains(buys, sells, 0, 0);
    assert forall|k: int, x: int|
        0 <= k < outcome.fills.len() && 0 <= x < buys.len() && (better(
            buys[x].price,
            buys[(#[trigger] outcome.fills[k]).buy].price,
            true,
        ) || (buys[x].price == buys[outcome.fills[k].buy].price && x
            < outcome.fills[k].buy)) implies (#[trigger] outcome.buys[x]).spent() by {
        let at = outcome.fills[k].buy;
        assert(feasible(outcome.fills[k], buys, sells));
        if at < x {
            assert(!better(buys[x].price, buys[at].price, true));
        }
    }
    assert forall|k: int, y: int|
        0 <= k < outcome.fills.len() && 0 <= y < sells.len() && (better(
            sells[y].price,
            sells[(#[trigger] outcome.fills[k]).sell].price,
            false,
        ) || (sells[y].price == sells[outcome.fills[k].sell].price && y
            < outcome.fills[k].sell)) implies (#[trigger] outcome.sells[y]).spent() by {
        let at = outcome.fills[k].sell;
        assert(feasible(outcome.fills[k], buys, sells));
        if at < y {
            assert(!better(sells[y].price, sells[at].price, false));
        }
    }
}

/// A cycle that makes no fill changes no order.
pub proof fn lemma_no_fill_no_change(buys: Seq<OrderView>, sells: Seq<OrderView>)
    requires
        matching(buys, sells).fills.len() == 0,
    ensures
        matching(buys, sells).buys == buys,
        matching(buys, sells).sells == sells,
{
    lemma_conserved_from(buys, sells, 0, 0);
    lemma_cycle_only_drains(buys, sells, 0, 0);
    let outcome = matching(buys, sells);
    assert(outcome.fills =~= Seq::empty());
    assert forall|x: int| 0 <= x < buys.len() implies outcome.buys[x] == buys[x] by {
        assert(drained(buys[x], outcome.buys[x]));
        assert(outcome.buys[x].quantity + bought(outcome.fills, x) == buys[x].quantity);
    }
    assert forall|y: int| 0 <= y < sells.len() implies outcome.sells[y] == sells[y] by {
        assert(drained(sells[y], outcome.sells[y]));
        assert(outcome.sells[y].quantity + sold(outcome.fills, y) == sells[y].quantity);
    }
    assert(outcome.buys =~= buys);
    assert(outcome.sells =~= sells);
}

proof fn lemma_uncrossed_from(buys: Seq<OrderView>, sells: Seq<OrderView>, i: int, j: int)
    requires
        0 <= i,
        0 <= j,
        sorted(buys, true),
        sorted(sells, false),
        spent_before(buys, i),
        spent_before(sells, j),
    ensures
        uncrossed(match_from(buys, sells, i, j).buys, match_from(buys, sells, i, j).sells),
    decreases buys.len() - i + sells.len() - j,
{
    let outcome = match_from(buys, sells, i, j);
    if i >= buys.len() || j >= sells.len() {
        assert(outcome.buys == buys && outcome.sells == sells);
    } else if sells[j].spent() {
        lemma_uncrossed_from(buys, sells, i, j + 1);
        assert(outcome == match_from(buys, sells, i, j + 1));
    } else if buys[i].price < sells[j].price {
        assert(outcome.buys == buys && outcome.sells == sells);
        assert forall|x: int, y: int|
            0 <= x < buys.len() && 0 <= y < sells.len() && !(#[trigger] buys[x]).spent() && !(
            #[trigger] sells[y]).spent() implies buys[x].price < sells[y].price by {
            if i < x {
                assert(!better(buys[x].price, buys[i].price, true));
            }
            if j < y {
                assert(!better(sells[y].price, sells[j].price, false));
            }
        }
    } else {
        let fill = fill_of(buys, sells, i, j);
        let buys_after = buys.update(i, buys[i].filled(fill.quantity));
        let sells_after = sells.update(j, sells[j].filled(fill.quantity));
        assert forall|x: int, y: int| 0 <= x < y < buys_after.len() implies !better(
            #[trigger] buys_after[y].price,
            #[trigger] buys_after[x].price,
            true,
        ) by {
            assert(!better(buys[y].price, buys[x].price, true));
        }
        assert forall|x: int, y: int| 0 <= x < y < sells_after.len() implies !better(
            #[trigger] sells_after[y].price,
            #[trigger] sells_after[x].price,
            false,
        ) by {
            assert(!better(sells[y].price, sells[x].price, false));
        }
        assert(spent_before(buys_after, i)) by {
            assert forall|x: int| 0 <= x < i && x < buys_after.len() implies (
            #[trigger] buys_after[x]).spent() by {
                assert(buys[x].spent());
            }
        }
        assert(spent_before(sells_after, j)) by {
            assert forall|y: int| 0 <= y < j && y < sells_after.len() implies (
            #[trigger] sells_after[y]).spent() by {
                assert(sells[y].spent());
            }
        }
        if buys_after[i].spent() {
            assert(spent_before(buys_after, i + 1));
            lemma_uncrossed_from(buys_after, sells_after, i + 1, j);
        } else {
            assert(sells_after[j].spent());
            assert(spent_before(sells_after, j + 1));
            lemma_uncrossed_from(buys_after, sells_after, i, j + 1);
        }
    }
}

/// A cycle over sorted queues trades until no unspent buy order reaches
/// the price of an unspent sell order.
pub proof fn lemma_cycle_uncrosses(buys: Seq<OrderView>, sells: Seq<OrderView>)
    requires
        sorted(buys, true),
        sorted(sells, false),
    ensures
        uncrossed(matching(buys, sells).buys, matching(buys, sells).sells),
{
    lemma_uncrossed_from(buys, sells, 0, 0);
}

/// Every unspent order of a queue is among those kept, and every order
/// kept is an unspent order of the queue.
pub proof fn lemma_unspent_comes_from_queue(queue: Seq<OrderView>, x: int) -> (k: int)
    requires
        0 <= x < unspent(queue).len(),
    ensures
        0 <= k < queue.len(),
        queue[k] == unspent(queue)[x],
        !queue[k].spent(),
    decreases queue.len(),
{
    if queue.last().spent() || x < unspent(queue.drop_last()).len() {
        lemma_unspent_comes_from_queue(queue.drop_last(), x)
    } else {
        queue.len() - 1
    }
}

/// A queue without spent orders loses nothing when the spent ones are
/// dropped.
pub proof fn lemma_nothing_spent_nothing_dropped(queue: Seq<OrderView>)
    requires
        forall|x: int| 0 <= x < queue.len() ==> !(#[trigger] queue[x]).spent(),
    ensures
        unspent(queue) == queue,
    decreases queue.len(),
{
    if queue.len() > 0 {
        let front = queue.drop_last();
        assert forall|x: int| 0 <= x < front.len() implies !(#[trigger] front[x]).spent() by {
            assert(front[x] == queue[x]);
        }
        lemma_nothing_spent_nothing_dropped(front);
        assert(!queue[queue.len() - 1].spent());
        assert(front.push(queue.last()) =~= queue);
    }
}

/// In an uncrossed book without spent orders a cycle does nothing.
pub proof fn lemma_uncrossed_book_is_quiet(buys: Seq<OrderView>, sells: Seq<OrderView>)
    requires
        uncrossed(buys, sells),
        forall|x: int| 0 <= x < buys.len() ==> !(#[trigger] buys[x]).spent(),
        forall|y: int| 0 <= y < sells.len() ==> !(#[trigger] sells[y]).spent(),
    ensures
        matching(buys, sells) == (Matching { buys, sells, fills: Seq::empty() }),
{
    if buys.len() > 0 && sells.len() > 0 {
        assert(!buys[0].spent() && !sells[0].spent());
    }
}

proof fn lemma_fills_positive_from(buys: Seq<OrderView>, sells: Seq<OrderView>, i: int, j: int)
    requires
        0 <= i,
        forall|x: int| i <= x < buys.len() ==> !(#[trigger] buys[x]).spent(),
    ensures
        forall|k: int|
            0 <= k < match_from(buys, sells, i, j).fills.len() ==> (#[trigger] match_from(
                buys,
                sells,
                i,
                j,
            ).fills[k]).quantity >= 1,
    decreases buys.len() - i + sells.len() - j,
{
    let outcome = match_from(buys, sells, i, j);
    if j < 0 || i >= buys.len() || j >= sells.len() {
        assert(outcome.fills.len() == 0);
    } else if sells[j].spent() {
        lemma_fills_positive_from(buys, sells, i, j + 1);
        assert(outcome == match_from(buys, sells, i, j + 1));
    } else if buys[i].price < sells[j].price {
        assert(outcome.fills.len() == 0);
    } else {
        let fill = fill_of(buys, sells, i, j);
        let buys_after = buys.update(i, buys[i].filled(fill.quantity));
        let sells_after = sells.update(j, sells[j].filled(fill.quantity));
        assert(!buys[i].spent());
        assert(fill.quantity >= 1);
        let rest = if buys_after[i].spent() {
            assert forall|x: int| i + 1 <= x < buys_after.len() implies !(
            #[trigger] buys_after[x]).spent() by {
                assert(!buys[x].spent());
            }
            lemma_fills_positive_from(buys_after, sells_after, i + 1, j);
            match_from(buys_after, sells_after, i + 1, j)
        } else {
            assert forall|x: int| i <= x < buys_after.len() implies !(
            #[trigger] buys_after[x]).spent() by {
                if x != i {
                    assert(!buys[x].spent());
                }
            }
            lemma_fills_positive_from(buys_after, sells_after, i, j + 1);
            match_from(buys_after, sells_after, i, j + 1)
        };
        assert(outcome.fills[0] == fill);
        assert forall|k: int| 0 <= k < outcome.fills.len() implies (
        #[trigger] outcome.fills[k]).quantity >= 1 by {
            if k > 0 {
                assert(outcome.fills[k] == rest.fills[k - 1]);
            }
        }
    }
}

/// Where no buy order is spent, every fill of a cycle moves a quantity of
/// at least 1.
pub proof fn lemma_fills_are_positive(buys: Seq<OrderView>, sells: Seq<OrderView>)
    requires
        forall|x: int| 0 <= x < buys.len() ==> !(#[trigger] buys[x]).spent(),
    ensures
        forall|k: int|
            0 <= k < matching(buys, sells).fills.len() ==> (#[trigger] matching(
                buys,
                sells,
            ).fills[k]).quantity >= 1,
{
    lemma_fills_positive_from(buys, sells, 0, 0);
}

} // verus!
