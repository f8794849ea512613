//! Price-ordered queues of resting orders.
//!
//! A buy queue runs from the highest price down, a sell queue from the
//! lowest price up. Among orders of one price the one that was added first
//! stays first.

use vstd::prelude::*;
use crate::order::{lemma_order_fits, Order, OrderView};

verus! {

/// The orders of a queue as mathematical values.
pub open spec fn views(orders: Seq<Order>) -> Seq<OrderView> {
    orders.map_values(|order: Order| order@)
}

/// The numbers of every order of the queue are numbers that an order can
/// hold.
pub open spec fn all_fit(queue: Seq<OrderView>) -> bool {
    forall|i: int| 0 <= i < queue.len() ==> (#[trigger] queue[i]).fits()
}

/// The orders of a queue in memory all hold numbers that fit.
pub proof fn lemma_views_fit(orders: Seq<Order>)
    ensures
        all_fit(views(orders)),
{
    assert forall|i: int| 0 <= i < views(orders).len() implies (#[trigger] views(orders)[i]).fits() by {
        lemma_order_fits(orders[i]);
    }
}

/// Whether price `a` beats price `b` on one side of the book: the higher
/// price on the buy side (`descending`), the lower one on the sell side.
pub open spec fn better(a: nat, b: nat, descending: bool) -> bool {
    if descending {
        a > b
    } else {
        a < b
    }
}

/// No order of the queue rests behind one with a worse price.
pub open spec fn sorted(queue: Seq<OrderView>, descending: bool) -> bool {
    forall|i: int, j: int|
        0 <= i < j < queue.len() ==> !better(
            #[trigger] queue[j].price,
            #[trigger] queue[i].price,
            descending,
        )
}

/// Where an order at `price` comes to rest: behind every order it does not
/// beat, so behind all the orders of its own price.
pub open spec fn slot(queue: Seq<OrderView>, price: nat, descending: bool) -> int
    decreases queue.len(),
{
    if queue.len() == 0 {
        0
    } else if better(price, queue.last().price, descending) {
        slot(queue.drop_last(), price, descending)
    } else {
        queue.len() as int
    }
}

/// The queue with `order` added at its slot.
pub open spec fn place(queue: Seq<OrderView>, order: OrderView, descending: bool) -> Seq<
    OrderView,
> {
    queue.insert(slot(queue, order.price, descending), order)
}

/// The orders rearranged by price, those of equal price in the order in
/// which they stand in `orders`.
pub open spec fn stable_sort(orders: Seq<OrderView>, descending: bool) -> Seq<OrderView>
    decreases orders.len(),
{
    if orders.len() == 0 {
        orders
    } else {
        place(stable_sort(orders.drop_last(), descending), orders.last(), descending)
    }
}

/// The slot of a price in a sorted queue splits the queue: no order before
/// the slot is beaten by the price, every order from the slot on is.
pub proof fn lemma_slot_splits(queue: Seq<OrderView>, price: nat, descending: bool)
    requires
        sorted(queue, descending),
    ensures
        0 <= slot(queue, price, descending) <= queue.len(),
        forall|i: int|
            0 <= i < slot(queue, price, descending) ==> !better(
                price,
                #[trigger] queue[i].price,
                descending,
            ),
        forall|i: int|
            slot(queue, price, descending) <= i < queue.len() ==> better(
                price,
                #[trigger] queue[i].price,
                descending,
            ),
    decreases queue.len(),
{
    if queue.len() > 0 {
        if better(price, queue.last().price, descending) {
            let front = queue.drop_last();
            assert forall|i: int, j: int| 0 <= i < j < front.len() implies !better(
                #[trigger] front[j].price,
                #[trigger] front[i].price,
                descending,
            ) by {
                assert(front[j] == queue[j] && front[i] == queue[i]);
            }
            lemma_slot_splits(front, price, descending);
            assert forall|i: int| slot(queue, price, descending) <= i < queue.len() implies better(
                price,
                #[trigger] queue[i].price,
                descending,
            ) by {
                if i < front.len() {
                    assert(front[i] == queue[i]);
                }
            }
            assert forall|i: int| 0 <= i < slot(queue, price, descending) implies !better(
                price,
                #[trigger] queue[i].price,
                descending,
            ) by {
                assert(front[i] == queue[i]);
            }
        } else {
            assert forall|i: int| 0 <= i < queue.len() implies !better(
                price,
                #[trigger] queue[i].price,
                descending,
            ) by {
                if i < queue.len() - 1 {
                    assert(!better(queue[queue.len() - 1].price, queue[i].price, descending));
                }
            }
        }
    }
}

/// Adding an order at its slot keeps a sorted queue sorted.
pub proof fn lemma_place_keeps_sorted(queue: Seq<OrderView>, order: OrderView, descending: bool)
    requires
        sorted(queue, descending),
    ensures
        sorted(place(queue, order, descending), descending),
        place(queue, order, descending).len() == queue.len() + 1,
{
    lemma_slot_splits(queue, order.price, descending);
    let k = slot(queue, order.price, descending);
    let placed = place(queue, order, descending);
    assert forall|i: int, j: int| 0 <= i < j < placed.len() implies !better(
        #[trigger] placed[j].price,
        #[trigger] placed[i].price,
        descending,
    ) by {
        if j < k {
            assert(placed[i] == queue[i] && placed[j] == queue[j]);
        } else if j == k {
            assert(placed[i] == queue[i]);
        } else if i < k {
            assert(placed[i] == queue[i] && placed[j] == queue[j - 1]);
        } else if i == k {
            assert(placed[j] == queue[j - 1]);
        } else {
            assert(placed[i] == queue[i - 1] && placed[j] == queue[j - 1]);
        }
    }
}

/// Sorting yields a sorted queue of the same length.
pub proof fn lemma_stable_sort_sorts(orders: Seq<OrderView>, descending: bool)
    ensures
        sorted(stable_sort(orders, descending), descending),
        stable_sort(orders, descending).len() == orders.len(),
    decreases orders.len(),
{
    if orders.len() > 0 {
        lemma_stable_sort_sorts(orders.drop_last(), descending);
        lemma_place_keeps_sorted(
            stable_sort(orders.drop_last(), descending),
            orders.last(),
            descending,
        );
    }
}

/// Sorting a sorted queue changes nothing.
pub proof fn lemma_stable_sort_fixes_sorted(queue: Seq<OrderView>, descending: bool)
    requires
        sorted(queue, descending),
    ensures
        stable_sort(queue, descending) == queue,
    decreases queue.len(),
{
    if queue.len() > 0 {
        let front = queue.drop_last();
        assert forall|i: int, j: int| 0 <= i < j < front.len() implies !better(
            #[trigger] front[j].price,
            #[trigger] front[i].price,
            descending,
        ) by {
            assert(front[j] == queue[j] && front[i] == queue[i]);
        }
        lemma_stable_sort_fixes_sorted(front, descending);
        lemma_slot_splits(front, queue.last().price, descending);
        let k = slot(front, queue.last().price, descending);
        if k < front.len() {
            assert(better(queue.last().price, front[k].price, descending));
            assert(front[k] == queue[k]);
            assert(!better(queue[queue.len() - 1].price, queue[k].price, descending));
        }
        assert(front.insert(k, queue.last()) =~= queue);
    }
}

/// Adding an order to a sorted queue and sorting again puts the order at
/// its slot and moves no other order.
pub proof fn lemma_sort_after_push(queue: Seq<OrderView>, order: OrderView, descending: bool)
    requires
        sorted(queue, descending),
    ensures
        stable_sort(queue.push(order), descending) == place(queue, order, descending),
{
    lemma_stable_sort_fixes_sorted(queue, descending);
    assert(queue.push(order).drop_last() =~= queue);
}

/// The orders of a queue that rest at `price`, in their order.
pub open spec fn at_price(queue: Seq<OrderView>, price: nat) -> Seq<OrderView>
    decreases queue.len(),
{
    if queue.len() == 0 {
        queue
    } else if queue.last().price == price {
        at_price(queue.drop_last(), price).push(queue.last())
    } else {
        at_price(queue.drop_last(), price)
    }
}

proof fn lemma_at_price_after_insert(queue: Seq<OrderView>, k: int, order: OrderView, price: nat)
    requires
        0 <= k <= queue.len(),
        forall|x: int| k <= x < queue.len() ==> (#[trigger] queue[x]).price != order.price,
    ensures
        at_price(queue.insert(k, order), price) == if order.price == price {
            at_price(queue, price).push(order)
        } else {
            at_price(queue, price)
        },
    decreases queue.len(),
{
    let grown = queue.insert(k, order);
    if k == queue.len() {
        assert(grown.drop_last() =~= queue);
    } else {
        let front = queue.drop_last();
        assert(grown.drop_last() =~= front.insert(k, order));
        assert(grown.last() == queue.last());
        assert(queue[queue.len() - 1].price != order.price);
        assert forall|x: int| k <= x < front.len() implies (#[trigger] front[x]).price
            != order.price by {
            assert(front[x] == queue[x]);
        }
        lemma_at_price_after_insert(front, k, order, price);
    }
}

/// An order added to a sorted queue comes last among the orders of its
/// price, and the orders of every price keep their order.
pub proof fn lemma_place_is_last_at_price(
    queue: Seq<OrderView>,
    order: OrderView,
    descending: bool,
    price: nat,
)
    requires
        sorted(queue, descending),
    ensures
        at_price(place(queue, order, descending), price) == if order.price == price {
            at_price(queue, price).push(order)
        } else {
            at_price(queue, price)
        },
{
    lemma_slot_splits(queue, order.price, descending);
    lemma_at_price_after_insert(queue, slot(queue, order.price, descending), order, price);
}

/// Sorting is stable: the orders of each price stand in the sorted queue
/// in the order in which they came.
pub proof fn lemma_stable_sort_is_stable(orders: Seq<OrderView>, descending: bool, price: nat)
    ensures
        at_price(stable_sort(orders, descending), price) == at_price(orders, price),
    decreases orders.len(),
{
    if orders.len() > 0 {
        lemma_stable_sort_is_stable(orders.drop_last(), descending, price);
        lemma_stable_sort_sorts(orders.drop_last(), descending);
        lemma_place_is_last_at_price(
            stable_sort(orders.drop_last(), descending),
            orders.last(),
            descending,
            price,
        );
    }
}

/// Whether price `a` beats price `b` on the given side.
pub fn is_better(a: usize, b: usize, descending: bool) -> (beats: bool)
    ensures
        beats == better(a as nat, b as nat, descending),
{
    if descending {
        a > b
    } else {
        a < b
    }
}

/// Sorts orders by price, best first, keeping orders of equal price in the
/// order in which they came.
pub fn sort_orders(orders: Vec<Order>, descending: bool) -> (queue: Vec<Order>)
    ensures
        views(queue@) == stable_sort(views(orders@), descending),
{
    let mut queue: Vec<Order> = Vec::new();
    let mut i: usize = 0;
    assert(views(orders@).take(0) =~= Seq::<OrderView>::empty());
    assert(views(queue@) =~= Seq::<OrderView>::empty());
    while i < orders.len()
        invariant
            0 <= i <= orders.len(),
            views(queue@) == stable_sort(views(orders@).take(i as int), descending),
        decreases orders.len() - i,
    {
        let order = orders[i];
        let ghost resting = views(queue@);
        proof {
            lemma_stable_sort_sorts(views(orders@).take(i as int), descending);
        }
        let mut k: usize = queue.len();
        assert(resting.take(k as int) =~= resting);
        while k > 0 && is_better(order.get_price(), queue[k - 1].get_price(), descending)
            invariant
                0 <= k <= queue.len(),
                resting == views(queue@),
                slot(resting, order@.price, descending) == slot(
                    resting.take(k as int),
                    order@.price,
                    descending,
                ),
            decreases k,
        {
            assert(resting.take(k as int).drop_last() =~= resting.take(k - 1));
            k = k - 1;
        }
        queue.insert(k, order);
        proof {
            assert(views(queue@) =~= resting.insert(k as int, order@));
            let upto = views(orders@).take(i + 1);
            assert(upto.drop_last() =~= views(orders@).take(i as int));
            assert(upto.last() == order@);
        }
        i = i + 1;
    }
    assert(views(orders@).take(i as int) =~= views(orders@));
    queue
}

} // verus!
