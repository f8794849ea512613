//! The depth of a queue: the quantity resting at each of its best prices.

use vstd::prelude::*;
use crate::order::{Order, OrderView};
use crate::queue::{better, lemma_slot_splits, place, slot, sorted, views};

verus! {

/// Number of price levels that a depth query reports.
pub const NO_OF_PRICES_QUERIED: usize = 5;

/// The price levels of a queue from its head on: each run of orders at one
/// price as that price and the total quantity of the run.
pub open spec fn levels(queue: Seq<OrderView>) -> Seq<(nat, nat)>
    decreases queue.len(),
{
    if queue.len() == 0 {
        Seq::empty()
    } else {
        let front = levels(queue.drop_last());
        let order = queue.last();
        if front.len() > 0 && front.last().0 == order.price {
            front.update(front.len() - 1, (order.price, front.last().1 + order.quantity))
        } else {
            front.push((order.price, order.quantity))
        }
    }
}

/// What a depth query reports: the first price levels of the queue, at
/// most `NO_OF_PRICES_QUERIED` of them.
pub open spec fn depth(queue: Seq<OrderView>) -> Seq<(nat, nat)> {
    let all = levels(queue);
    if all.len() <= NO_OF_PRICES_QUERIED {
        all
    } else {
        all.take(NO_OF_PRICES_QUERIED as int)
    }
}

/// The total quantity that rests in the queue at `price`.
pub open spec fn quantity_at(queue: Seq<OrderView>, price: nat) -> nat
    decreases queue.len(),
{
    if queue.len() == 0 {
        0
    } else {
        let last: nat = if queue.last().price == price {
            queue.last().quantity
        } else {
            0
        };
        quantity_at(queue.drop_last(), price) + last
    }
}

/// Reported levels as mathematical values.
pub open spec fn level_views(report: Seq<(usize, u128)>) -> Seq<(nat, nat)> {
    report.map_values(|level: (usize, u128)| (level.0 as nat, level.1 as nat))
}

/// No quantity rests at a price that no order of the queue has.
proof fn lemma_nothing_at_absent_price(queue: Seq<OrderView>, price: nat)
    requires
        forall|k: int| 0 <= k < queue.len() ==> (#[trigger] queue[k]).price != price,
    ensures
        quantity_at(queue, price) == 0,
    decreases queue.len(),
{
    if queue.len() > 0 {
        let front = queue.drop_last();
        assert forall|k: int| 0 <= k < front.len() implies (#[trigger] front[k]).price != price by {
            assert(front[k] == queue[k]);
        }
        lemma_nothing_at_absent_price(front, price);
        assert(queue[queue.len() - 1].price != price);
    }
}

/// The levels of a sorted queue run from the best price to the worst
/// without repeating a price.
pub open spec fn strictly_ordered(report: Seq<(nat, nat)>, descending: bool) -> bool {
    forall|x: int, y: int|
        0 <= x < y < report.len() ==> better(
            (#[trigger] report[x]).0,
            (#[trigger] report[y]).0,
            descending,
        )
}

/// In a sorted queue each price has one level, the levels run from the best
/// price to the worst, and each level shows all that rests at its price.
pub proof fn lemma_levels_show_totals(queue: Seq<OrderView>, descending: bool)
    requires
        sorted(queue, descending),
    ensures
        strictly_ordered(levels(queue), descending),
        forall|x: int|
            0 <= x < levels(queue).len() ==> (#[trigger] levels(queue)[x]).1 == quantity_at(
                queue,
                levels(queue)[x].0,
            ),
        queue.len() > 0 ==> levels(queue).len() > 0 && levels(queue).last().0
            == queue.last().price,
    decreases queue.len(),
{
    if queue.len() > 0 {
        let front = queue.drop_last();
        let order = queue.last();
        let before = levels(front);
        let after = levels(queue);
        assert forall|i: int, j: int| 0 <= i < j < front.len() implies !better(
            #[trigger] front[j].price,
            #[trigger] front[i].price,
            descending,
        ) by {
            assert(front[j] == queue[j] && front[i] == queue[i]);
        }
        lemma_levels_show_totals(front, descending);
        if before.len() > 0 && before.last().0 == order.price {
            assert forall|x: int| 0 <= x < after.len() implies (#[trigger] after[x]).1
                == quantity_at(queue, after[x].0) by {
                if x < after.len() - 1 {
                    assert(after[x] == before[x]);
                    assert(better(before[x].0, before[before.len() - 1].0, descending));
                }
            }
            assert forall|x: int, y: int| 0 <= x < y < after.len() implies better(
                (#[trigger] after[x]).0,
                (#[trigger] after[y]).0,
                descending,
            ) by {
                assert(better(before[x].0, before[y].0, descending));
            }
        } else {
            if front.len() > 0 {
                assert(!better(queue[queue.len() - 1].price, queue[front.len() - 1].price, descending));
                assert(front.last() == queue[front.len() - 1]);
                assert(better(before.last().0, order.price, descending));
                assert forall|k: int| 0 <= k < front.len() implies (#[trigger] front[k]).price
                    != order.price by {
                    assert(front[k] == queue[k]);
                    if k < front.len() - 1 {
                        assert(!better(front[front.len() - 1].price, front[k].price, descending));
                    }
                }
            }
            lemma_nothing_at_absent_price(front, order.price);
            assert forall|x: int| 0 <= x < after.len() implies (#[trigger] after[x]).1
                == quantity_at(queue, after[x].0) by {
                if x < before.len() {
                    assert(after[x] == before[x]);
                    if x < before.len() - 1 {
                        assert(better(before[x].0, before[before.len() - 1].0, descending));
                    }
                }
            }
            assert forall|x: int, y: int| 0 <= x < y < after.len() implies better(
                (#[trigger] after[x]).0,
                (#[trigger] after[y]).0,
                descending,
            ) by {
                if y < before.len() {
                    assert(better(before[x].0, before[y].0, descending));
                } else {
                    assert(after[x] == before[x]);
                    if x < before.len() - 1 {
                        assert(better(before[x].0, before[before.len() - 1].0, descending));
                    }
                }
            }
        }
    }
}

proof fn lemma_quantity_after_insert(queue: Seq<OrderView>, k: int, order: OrderView, price: nat)
    requires
        0 <= k <= queue.len(),
    ensures
        quantity_at(queue.insert(k, order), price) == quantity_at(queue, price) + if order.price
            == price {
            order.quantity
        } else {
            0
        },
    decreases queue.len(),
{
    let grown = queue.insert(k, order);
    if k == queue.len() {
        assert(grown.drop_last() =~= queue);
    } else {
        assert(grown.drop_last() =~= queue.drop_last().insert(k, order));
        assert(grown.last() == queue.last());
        lemma_quantity_after_insert(queue.drop_last(), k, order, price);
    }
}

/// Adding an order raises the quantity that rests at its price by the
/// order's quantity and leaves every other price as it was.
pub proof fn lemma_added_order_adds_quantity(
    queue: Seq<OrderView>,
    order: OrderView,
    descending: bool,
    price: nat,
)
    requires
        sorted(queue, descending),
    ensures
        quantity_at(place(queue, order, descending), price) == quantity_at(queue, price)
            + if order.price == price {
            order.quantity
        } else {
            0
        },
{
    lemma_slot_splits(queue, order.price, descending);
    lemma_quantity_after_insert(queue, slot(queue, order.price, descending), order, price);
}

/// What a depth query shows of a sorted queue: distinct prices from the
/// best on, each with all that rests at it.
pub proof fn lemma_depth_shows_totals(queue: Seq<OrderView>, descending: bool)
    requires
        sorted(queue, descending),
    ensures
        depth(queue).len() <= NO_OF_PRICES_QUERIED,
        strictly_ordered(depth(queue), descending),
        forall|x: int|
            0 <= x < depth(queue).len() ==> (#[trigger] depth(queue)[x]).1 == quantity_at(
                queue,
                depth(queue)[x].0,
            ),
{
    lemma_levels_show_totals(queue, descending);
    let all = levels(queue);
    assert forall|x: int, y: int| 0 <= x < y < depth(queue).len() implies better(
        (#[trigger] depth(queue)[x]).0,
        (#[trigger] depth(queue)[y]).0,
        descending,
    ) by {
        assert(better(all[x].0, all[y].0, descending));
    }
    assert forall|x: int| 0 <= x < depth(queue).len() implies (#[trigger] depth(queue)[x]).1
        == quantity_at(queue, depth(queue)[x].0) by {
        assert(depth(queue)[x] == all[x]);
    }
}

/// Adding an order and querying the depth at once: every level shown holds
/// what rested at its price before, and the level at the order's price holds
/// the order's quantity on top of that.
pub proof fn lemma_depth_after_adding(queue: Seq<OrderView>, order: OrderView, descending: bool)
    requires
        sorted(queue, descending),
    ensures
        forall|x: int|
            0 <= x < depth(place(queue, order, descending)).len() ==> (#[trigger] depth(
                place(queue, order, descending),
            )[x]).1 == quantity_at(queue, depth(place(queue, order, descending))[x].0)
                + if depth(place(queue, order, descending))[x].0 == order.price {
                order.quantity
            } else {
                0
            },
{
    let grown = place(queue, order, descending);
    crate::queue::lemma_place_keeps_sorted(queue, order, descending);
    lemma_depth_shows_totals(grown, descending);
    assert forall|x: int| 0 <= x < depth(grown).len() implies (#[trigger] depth(grown)[x]).1
        == quantity_at(queue, depth(grown)[x].0) + if depth(grown)[x].0 == order.price {
        order.quantity
    } else {
        0
    } by {
        lemma_added_order_adds_quantity(queue, order, descending, depth(grown)[x].0);
    }
}

/// Once an order opens a new level, the levels before it are final: they
/// head the levels of the whole queue.
proof fn lemma_levels_settle(queue: Seq<OrderView>, i: int)
    requires
        0 <= i < queue.len(),
        levels(queue.take(i)).len() == 0 || levels(queue.take(i)).last().0 != queue[i].price,
    ensures
        levels(queue).len() > levels(queue.take(i)).len(),
        levels(queue).take(levels(queue.take(i)).len() as int) == levels(queue.take(i)),
    decreases queue.len(),
{
    let head = levels(queue.take(i));
    if queue.len() == i + 1 {
        assert(queue.drop_last() =~= queue.take(i));
        assert(levels(queue).take(head.len() as int) =~= head);
    } else {
        let front = queue.drop_last();
        assert(front.take(i) =~= queue.take(i));
        lemma_levels_settle(front, i);
        assert(levels(queue).take(head.len() as int) =~= levels(front).take(head.len() as int));
    }
}

/// The total of a level fits the result type whatever the orders hold.
proof fn lemma_room_for_one_more(total: nat, count: nat, quantity: nat)
    requires
        total <= count * usize::MAX,
        quantity <= usize::MAX,
        count < usize::MAX,
    ensures
        total + quantity <= (count + 1) * usize::MAX,
        (count + 1) * usize::MAX <= u128::MAX,
{
    assert(total + quantity <= (count + 1) * usize::MAX) by (nonlinear_arith)
        requires
            total <= count * usize::MAX,
            quantity <= usize::MAX,
    ;
    assert((count + 1) * usize::MAX <= u128::MAX) by (nonlinear_arith)
        requires
            count + 1 <= usize::MAX,
            usize::MAX <= 0xffff_ffff_ffff_ffff,
            u128::MAX == 0xffff_ffff_ffff_ffff_ffff_ffff_ffff_ffff,
    ;
}

/// Reports the depth of a queue: its first `NO_OF_PRICES_QUERIED` price
/// levels, each with the total quantity resting at it.
pub fn queried_levels(orders: &Vec<Order>) -> (report: Vec<(usize, u128)>)
    ensures
        level_views(report@) == depth(views(orders@)),
{
    let mut report: Vec<(usize, u128)> = Vec::new();
    let mut i: usize = 0;
    let mut full = false;
    let ghost queue = views(orders@);
    assert(queue.take(0) =~= Seq::<OrderView>::empty());
    assert(level_views(report@) =~= Seq::<(nat, nat)>::empty());
    while !full && i < orders.len()
        invariant
            0 <= i <= orders.len(),
            queue == views(orders@),
            level_views(report@) == levels(queue.take(i as int)),
            report.len() <= NO_OF_PRICES_QUERIED,
            forall|x: int| 0 <= x < report.len() ==> (#[trigger] report[x]).1 <= i * usize::MAX,
            full ==> i < orders.len() && report.len() == NO_OF_PRICES_QUERIED && report[report.len()
                - 1].0 != queue[i as int].price,
        decreases (if full { 0int } else { 1int }) + orders.len() - i,
    {
        let price = orders[i].get_price();
        let quantity = orders[i].get_quantity();
        let n = report.len();
        let ghost before = level_views(report@);
        proof {
            assert(queue.take(i + 1).drop_last() =~= queue.take(i as int));
            assert(queue.take(i + 1).last() == queue[i as int]);
            assert(queue[i as int] == orders[i as int]@);
            assert(n > 0 ==> before[n - 1] == (report[n - 1].0 as nat, report[n - 1].1 as nat));
            assert((i + 1) * usize::MAX >= i * usize::MAX) by (nonlinear_arith);
        }
        if n > 0 && report[n - 1].0 == price {
            proof {
                lemma_room_for_one_more(report[n - 1].1 as nat, i as nat, quantity as nat);
            }
            let total: u128 = report[n - 1].1 + quantity as u128;
            report.set(n - 1, (price, total));
            assert(level_views(report@) =~= before.update(
                n - 1,
                (price as nat, before[n - 1].1 + quantity as nat),
            ));
            i = i + 1;
        } else if n >= NO_OF_PRICES_QUERIED {
            full = true;
        } else {
            proof {
                lemma_room_for_one_more(0, i as nat, quantity as nat);
            }
            report.push((price, quantity as u128));
            assert(level_views(report@) =~= before.push((price as nat, quantity as nat)));
            i = i + 1;
        }
    }
    proof {
        if full {
            lemma_levels_settle(queue, i as int);
        } else {
            assert(queue.take(i as int) =~= queue);
        }
    }
    report
}

} // verus!
