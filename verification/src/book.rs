//! One side of the book: price levels in ascending order, each a FIFO of
//! resting orders, specified against the model in `model`.

use vstd::prelude::*;

use crate::model::BookModel;
use crate::model::LevelModel;
use crate::model::book_has_id;
use crate::model::book_insert;
use crate::model::book_remove;
use crate::model::insert_pos;
use crate::model::lemma_insert_pos_bounds;
use crate::model::lemma_level_of_id_bounds;
use crate::model::lemma_pos_in_queue_bounds;
use crate::model::level_of_id;
use crate::model::order_count;
use crate::model::pos_in_queue;
use crate::model::queue_has_id;
use crate::model::removed_order;
use crate::orders::OrderId;
use crate::orders::OrderPrice;
use crate::orders::OrderbookOrder;

verus! {

/// One price level: the price and the orders resting at it, in arrival
/// order.
#[derive(Clone, Debug)]
pub struct BookLevel {
    pub price: OrderPrice,
    pub orders: Vec<OrderbookOrder>,
}

/// One side of the book: levels kept in strictly ascending price order.
/// The best ask is the first level; the best bid is the last.
#[derive(Clone, Debug)]
pub struct Orderbook {
    pub orders: Vec<BookLevel>,
}

impl View for Orderbook {
    type V = BookModel;

    open spec fn view(&self) -> BookModel {
        Seq::new(
            self.orders@.len(),
            |i: int| LevelModel { price: self.orders@[i].price, queue: self.orders@[i].orders@ },
        )
    }
}

/// `order_count` of a prefix never exceeds that of the whole book.
proof fn lemma_order_count_prefix(b: BookModel, i: int)
    requires
        0 <= i <= b.len(),
    ensures
        order_count(b.subrange(0, i)) <= order_count(b),
    decreases b.len() - i,
{
    if i == b.len() {
        assert(b.subrange(0, i) =~= b);
    } else {
        assert(b.subrange(0, i + 1).drop_last() =~= b.subrange(0, i));
        assert(order_count(b.subrange(0, i + 1)) == order_count(b.subrange(0, i)) + b[i].queue.len());
        lemma_order_count_prefix(b, i + 1);
    }
}

impl Orderbook {
    /// An empty side book.
    pub fn new() -> (r: Orderbook)
        ensures
            r@ == Seq::<LevelModel>::empty(),
    {
        let r = Orderbook { orders: Vec::new() };
        proof {
            assert(r@ =~= Seq::<LevelModel>::empty());
        }
        r
    }

    /// The number of resting orders across all levels of this side.
    pub fn count(&self) -> (r: usize)
        requires
            order_count(self@) <= usize::MAX,
        ensures
            r == order_count(self@),
    {
        let mut total: usize = 0;
        let mut i: usize = 0;
        while i < self.orders.len()
            invariant
                0 <= i <= self.orders.len(),
                order_count(self@) <= usize::MAX,
                total == order_count(self@.subrange(0, i as int)),
            decreases self.orders.len() - i,
        {
            proof {
                assert(self@.subrange(0, i + 1).drop_last() =~= self@.subrange(0, i as int));
                assert(self@.subrange(0, i + 1).last() == self@[i as int]);
                lemma_order_count_prefix(self@, i + 1);
            }
            total = total + self.orders[i].orders.len();
            i = i + 1;
        }
        proof {
            assert(self@.subrange(0, self.orders.len() as int) =~= self@);
        }
        total
    }

    /// Append `order` to the FIFO at `price_level`, creating the level if
    /// absent. The id must not already rest on this side.
    pub fn insert(&mut self, price_level: OrderPrice, order: OrderbookOrder)
        requires
            !book_has_id(old(self)@, order.id),
        ensures
            final(self)@ == book_insert(old(self)@, price_level, order),
    {
        let mut i: usize = 0;
        while i < self.orders.len() && self.orders[i].price < price_level
            invariant
                0 <= i <= self.orders.len(),
                forall|j: int| 0 <= j < i ==> (#[trigger] self@[j]).price < price_level,
            decreases self.orders.len() - i,
        {
            i = i + 1;
        }
        proof {
            lemma_insert_pos_bounds(self@, price_level);
            assert(i == insert_pos(self@, price_level)) by {
                let ip = insert_pos(self@, price_level);
                if (i as int) < ip {
                    assert(self@[i as int].price < price_level);
                    assert(self@[i as int].price == self.orders@[i as int].price);
                }
                if ip < i as int {
                    assert(self@[ip].price < price_level);
                }
            }
        }
        if i < self.orders.len() && self.orders[i].price == price_level {
            let ghost before = self@;
            let mut lvl = self.orders.remove(i);
            lvl.orders.push(order);
            self.orders.insert(i, lvl);
            proof {
                assert(self@ =~= before.update(
                    i as int,
                    LevelModel { price: price_level, queue: before[i as int].queue.push(order) },
                ));
            }
        } else {
            let ghost before = self@;
            let mut fresh_queue: Vec<OrderbookOrder> = Vec::new();
            fresh_queue.push(order);
            let lvl = BookLevel { price: price_level, orders: fresh_queue };
            self.orders.insert(i, lvl);
            proof {
                assert(lvl.orders@ =~= seq![order]);
                assert(self@ =~= before.insert(
                    i as int,
                    LevelModel { price: price_level, queue: seq![order] },
                ));
            }
        }
    }

    /// Remove the resting order with this id, and its level once empty;
    /// `None` when no order on this side carries the id.
    pub fn remove(&mut self, order_id: OrderId) -> (r: Option<OrderbookOrder>)
        ensures
            final(self)@ == book_remove(old(self)@, order_id),
            book_has_id(old(self)@, order_id) ==> r == Some(removed_order(old(self)@, order_id)),
            !book_has_id(old(self)@, order_id) ==> r is None && final(self)@ == old(self)@,
            r is Some ==> r.unwrap().id == order_id,
    {
        let ghost b0 = self@;
        proof {
            lemma_level_of_id_bounds(b0, order_id);
        }
        let mut i: usize = 0;
        while i < self.orders.len()
            invariant
                0 <= i <= self.orders.len(),
                self@ == b0,
                b0 == old(self)@,
                forall|j: int| 0 <= j < i ==> !queue_has_id((#[trigger] b0[j]).queue, order_id),
            decreases self.orders.len() - i,
        {
            let k_opt = queue_position(&self.orders[i].orders, order_id);
            match k_opt {
                Some(k) => {
                    proof {
                        lemma_level_of_id_bounds(b0, order_id);
                        assert(b0[i as int].queue == self.orders@[i as int].orders@);
                        assert(queue_has_id(b0[i as int].queue, order_id));
                        assert(book_has_id(b0, order_id)) by {
                            assert(0 <= i < b0.len() && queue_has_id(b0[i as int].queue, order_id));
                        }
                        assert(i == level_of_id(b0, order_id)) by {
                            if (i as int) < level_of_id(b0, order_id) {
                                assert(!queue_has_id(b0[i as int].queue, order_id));
                            }
                            if level_of_id(b0, order_id) < i as int {
                                assert(!queue_has_id(b0[level_of_id(b0, order_id)].queue, order_id));
                            }
                        }
                        assert(k == pos_in_queue(b0[i as int].queue, order_id));
                    }
                    let mut lvl = self.orders.remove(i);
                    let removed = lvl.orders.remove(k);
                    proof {
                        assert(removed == removed_order(b0, order_id));
                    }
                    if lvl.orders.len() > 0 {
                        self.orders.insert(i, lvl);
                        proof {
                            assert(self@ =~= b0.update(
                                i as int,
                                LevelModel {
                                    price: b0[i as int].price,
                                    queue: b0[i as int].queue.remove(k as int),
                                },
                            ));
                        }
                    } else {
                        proof {
                            assert(self@ =~= b0.remove(i as int));
                        }
                    }
                    return Some(removed);
                },
                None => {
                    i = i + 1;
                },
            }
        }
        proof {
            assert(!book_has_id(b0, order_id));
        }
        None
    }
}

/// The position of the order with this id in the queue, or `None` when the
/// queue does not hold it.
fn queue_position(q: &Vec<OrderbookOrder>, id: OrderId) -> (r: Option<usize>)
    ensures
        match r {
            Some(k) => k == pos_in_queue(q@, id) && k < q@.len() && q@[k as int].id == id
                && queue_has_id(q@, id),
            None => !queue_has_id(q@, id),
        },
{
    proof {
        lemma_pos_in_queue_bounds(q@, id);
    }
    let mut k: usize = 0;
    while k < q.len()
        invariant
            0 <= k <= q@.len(),
            forall|l: int| 0 <= l < k ==> (#[trigger] q@[l]).id != id,
        decreases q@.len() - k,
    {
        if q[k].id == id {
            proof {
                lemma_pos_in_queue_bounds(q@, id);
            }
            return Some(k);
        }
        k = k + 1;
    }
    None
}

} // verus!
