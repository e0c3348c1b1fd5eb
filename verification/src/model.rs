//! The mathematical model of a side book: a price-ascending sequence of
//! levels, each a FIFO queue of resting orders. The spec functions here
//! define well-formedness, membership, insertion and removal; the
//! executable book in `book` is specified against them.

use vstd::prelude::*;

use crate::orders::OrderId;
use crate::orders::OrderPrice;
use crate::orders::OrderbookOrder;

verus! {

/// One price level of the model: a price and the resting orders queued at
/// it, head first (earliest arrival first).
pub ghost struct LevelModel {
    pub price: OrderPrice,
    pub queue: Seq<OrderbookOrder>,
}

/// A side book in the model: levels in strictly ascending price order.
pub type BookModel = Seq<LevelModel>;

/// Levels are strictly ascending by price.
pub open spec fn book_sorted(b: BookModel) -> bool {
    forall|i: int, j: int|
        0 <= i < j < b.len() ==> (#[trigger] b[i]).price < (#[trigger] b[j]).price
}

/// Every level holds at least one order, and every order still has volume.
pub open spec fn levels_wf(b: BookModel) -> bool {
    forall|i: int, k: int|
        0 <= i < b.len() && 0 <= k < (#[trigger] b[i]).queue.len()
            ==> b[i].queue.len() > 0 && (#[trigger] b[i].queue[k]).remaining_volume > 0
}

/// No two positions of the book hold the same order id.
pub open spec fn book_ids_unique(b: BookModel) -> bool {
    forall|i: int, k: int, j: int, l: int|
        0 <= i < b.len() && 0 <= k < b[i].queue.len() && 0 <= j < b.len() && 0 <= l
            < b[j].queue.len() && (i != j || k != l)
            ==> (#[trigger] b[i].queue[k]).id != (#[trigger] b[j].queue[l]).id
}

/// A well-formed side book: sorted, no empty level, no spent order, and no
/// repeated id.
pub open spec fn book_wf(b: BookModel) -> bool {
    &&& book_sorted(b)
    &&& nonempty_levels(b)
    &&& volumes_positive(b)
    &&& book_ids_unique(b)
}

/// Every level holds at least one order.
pub open spec fn nonempty_levels(b: BookModel) -> bool {
    forall|i: int| 0 <= i < b.len() ==> (#[trigger] b[i]).queue.len() > 0
}

/// Every resting order still has volume.
pub open spec fn volumes_positive(b: BookModel) -> bool {
    forall|i: int, k: int|
        0 <= i < b.len() && 0 <= k < b[i].queue.len()
            ==> (#[trigger] b[i].queue[k]).remaining_volume > 0
}

/// Some order in the queue carries this id.
pub open spec fn queue_has_id(q: Seq<OrderbookOrder>, id: OrderId) -> bool {
    exists|k: int| 0 <= k < q.len() && (#[trigger] q[k]).id == id
}

/// Some order in the book carries this id.
pub open spec fn book_has_id(b: BookModel, id: OrderId) -> bool {
    exists|i: int| 0 <= i < b.len() && queue_has_id((#[trigger] b[i]).queue, id)
}

/// The number of resting orders across all levels.
pub open spec fn order_count(b: BookModel) -> nat
    decreases b.len(),
{
    if b.len() == 0 {
        0
    } else {
        order_count(b.drop_last()) + b.last().queue.len()
    }
}

/// The position at which a level of the given price stands or would be
/// inserted: the least index whose price is not below `price`.
pub open spec fn insert_pos(b: BookModel, price: OrderPrice) -> int
    decreases b.len(),
{
    if b.len() == 0 {
        0
    } else if b[0].price >= price {
        0
    } else {
        1 + insert_pos(b.drop_first(), price)
    }
}

/// The book after appending `o` to the FIFO at `price`, creating the level
/// if absent.
pub open spec fn book_insert(b: BookModel, price: OrderPrice, o: OrderbookOrder) -> BookModel {
    let i = insert_pos(b, price);
    if i < b.len() && b[i].price == price {
        b.update(i, LevelModel { price, queue: b[i].queue.push(o) })
    } else {
        b.insert(i, LevelModel { price, queue: seq![o] })
    }
}

/// The index of the level holding `id`: the least index whose queue
/// contains it, or the length of the book when no level does.
pub open spec fn level_of_id(b: BookModel, id: OrderId) -> int
    decreases b.len(),
{
    if b.len() == 0 {
        0
    } else if queue_has_id(b[0].queue, id) {
        0
    } else {
        1 + level_of_id(b.drop_first(), id)
    }
}

/// The position of `id` within a queue: the least index holding it, or the
/// queue length when none does.
pub open spec fn pos_in_queue(q: Seq<OrderbookOrder>, id: OrderId) -> int
    decreases q.len(),
{
    if q.len() == 0 {
        0
    } else if q[0].id == id {
        0
    } else {
        1 + pos_in_queue(q.drop_first(), id)
    }
}

/// The resting order that `book_remove` takes out; meaningful only when
/// the book holds the id.
pub open spec fn removed_order(b: BookModel, id: OrderId) -> OrderbookOrder {
    let i = level_of_id(b, id);
    b[i].queue[pos_in_queue(b[i].queue, id)]
}

/// The book after removing the order with this id, the level too once its
/// queue is empty; the book unchanged when no order carries the id.
pub open spec fn book_remove(b: BookModel, id: OrderId) -> BookModel {
    if !book_has_id(b, id) {
        b
    } else {
        let i = level_of_id(b, id);
        let q2 = b[i].queue.remove(pos_in_queue(b[i].queue, id));
        if q2.len() == 0 {
            b.remove(i)
        } else {
            b.update(i, LevelModel { price: b[i].price, queue: q2 })
        }
    }
}

/// `insert_pos` is characterised by the prices around it: everything
/// before it is cheaper, and it is the first index that is not.
pub proof fn lemma_insert_pos_bounds(b: BookModel, price: OrderPrice)
    ensures
        0 <= insert_pos(b, price) <= b.len(),
        forall|j: int| 0 <= j < insert_pos(b, price) ==> (#[trigger] b[j]).price < price,
        insert_pos(b, price) < b.len() ==> b[insert_pos(b, price)].price >= price,
    decreases b.len(),
{
    if b.len() == 0 {
    } else if b[0].price >= price {
    } else {
        lemma_insert_pos_bounds(b.drop_first(), price);
        assert forall|j: int| 0 <= j < insert_pos(b, price) implies (#[trigger] b[j]).price
            < price by {
            if j > 0 {
                assert(b.drop_first()[j - 1] == b[j]);
            }
        }
    }
}

/// `level_of_id` is characterised by membership: no earlier level holds
/// the id, and when the book holds it at all, the indexed level does.
pub proof fn lemma_level_of_id_bounds(b: BookModel, id: OrderId)
    ensures
        0 <= level_of_id(b, id) <= b.len(),
        forall|j: int| 0 <= j < level_of_id(b, id) ==> !queue_has_id((#[trigger] b[j]).queue, id),
        book_has_id(b, id) <==> (level_of_id(b, id) < b.len() && queue_has_id(
            b[level_of_id(b, id)].queue,
            id,
        )),
    decreases b.len(),
{
    if b.len() == 0 {
        assert(!book_has_id(b, id));
    } else if queue_has_id(b[0].queue, id) {
    } else {
        lemma_level_of_id_bounds(b.drop_first(), id);
        assert forall|j: int| 0 <= j < level_of_id(b, id) implies !queue_has_id(
            (#[trigger] b[j]).queue,
            id,
        ) by {
            if j > 0 {
                assert(b.drop_first()[j - 1] == b[j]);
            }
        }
        if book_has_id(b.drop_first(), id) {
            let i = level_of_id(b.drop_first(), id);
            assert(b[i + 1] == b.drop_first()[i]);
            assert(book_has_id(b, id));
        }
        if book_has_id(b, id) {
            let i = choose|i: int| 0 <= i < b.len() && queue_has_id((#[trigger] b[i]).queue, id);
            assert(i > 0);
            assert(b.drop_first()[i - 1] == b[i]);
            assert(book_has_id(b.drop_first(), id));
        }
    }
}

/// Removing a whole level keeps the book well formed, keeps every other
/// id, and takes every id of that level with it.
pub proof fn lemma_remove_level(b: BookModel, i: int)
    requires
        book_wf(b),
        0 <= i < b.len(),
    ensures
        book_wf(b.remove(i)),
        forall|id: OrderId| book_has_id(b.remove(i), id) ==> book_has_id(b, id),
        forall|id: OrderId|
            queue_has_id(b[i].queue, id) ==> !(#[trigger] book_has_id(b.remove(i), id)),
{
    let b2 = b.remove(i);
    assert(forall|j: int| 0 <= j < i ==> b2[j] == b[j]);
    assert(forall|j: int| i <= j < b2.len() ==> b2[j] == b[j + 1]);
    assert forall|j: int, k: int, j2: int, l: int|
        0 <= j < b2.len() && 0 <= k < b2[j].queue.len() && 0 <= j2 < b2.len() && 0 <= l
        < b2[j2].queue.len() && (j != j2 || k != l) implies (#[trigger] b2[j].queue[k]).id != (
    #[trigger] b2[j2].queue[l]).id by {
        let j1 = if j < i { j } else { j + 1 };
        let j3 = if j2 < i { j2 } else { j2 + 1 };
        assert(b2[j] == b[j1] && b2[j2] == b[j3]);
        assert(b[j1].queue[k].id != b[j3].queue[l].id);
    }
    assert forall|id: OrderId| book_has_id(b2, id) implies book_has_id(b, id) by {
        let j = choose|j: int| 0 <= j < b2.len() && queue_has_id((#[trigger] b2[j]).queue, id);
        let j1 = if j < i { j } else { j + 1 };
        assert(b2[j] == b[j1]);
        assert(queue_has_id(b[j1].queue, id));
    }
    assert forall|id: OrderId|
        queue_has_id(b[i].queue, id) implies !(#[trigger] book_has_id(b2, id)) by {
        if book_has_id(b2, id) {
            let j = choose|j: int| 0 <= j < b2.len() && queue_has_id((#[trigger] b2[j]).queue, id);
            let j1 = if j < i { j } else { j + 1 };
            assert(b2[j] == b[j1]);
            let k = choose|k: int| 0 <= k < b[j1].queue.len() && (#[trigger] b[j1].queue[k]).id == id;
            let k0 = choose|k0: int| 0 <= k0 < b[i].queue.len() && (#[trigger] b[i].queue[k0]).id == id;
            assert(b[j1].queue[k].id == b[i].queue[k0].id);
            assert(false);
        }
    }
}

/// Inserting a fresh order keeps the book well formed, adds exactly its
/// id, and moves the extreme prices only toward the inserted price.
pub proof fn lemma_book_insert_wf(b: BookModel, price: OrderPrice, o: OrderbookOrder)
    requires
        book_wf(b),
        !book_has_id(b, o.id),
        o.remaining_volume > 0,
    ensures
        ({
            let b2 = book_insert(b, price, o);
            &&& book_wf(b2)
            &&& b2.len() > 0
            &&& forall|x: OrderId|
                #[trigger] book_has_id(b2, x) <==> book_has_id(b, x) || x == o.id
            &&& b2[b2.len() - 1].price == (if b.len() > 0 && b[b.len() - 1].price >= price {
                b[b.len() - 1].price
            } else {
                price
            })
            &&& b2[0].price == (if b.len() > 0 && b[0].price <= price {
                b[0].price
            } else {
                price
            })
        }),
{
    lemma_insert_pos_bounds(b, price);
    let i = insert_pos(b, price);
    let b2 = book_insert(b, price, o);
    if i < b.len() && b[i].price == price {
        let q2 = b[i].queue.push(o);
        assert(forall|j: int| 0 <= j < b2.len() && j != i ==> b2[j] == b[j]);
        assert(b2[i].queue == q2 && b2[i].price == price);
        assert forall|j: int, k: int, j2: int, l: int|
            0 <= j < b2.len() && 0 <= k < b2[j].queue.len() && 0 <= j2 < b2.len() && 0 <= l
            < b2[j2].queue.len() && (j != j2 || k != l) implies (#[trigger] b2[j].queue[k]).id
            != (#[trigger] b2[j2].queue[l]).id by {
            if j == i && k == b[i].queue.len() {
                assert(b2[j].queue[k] == o);
                assert(queue_has_id(b[j2].queue, b2[j2].queue[l].id));
                assert(book_has_id(b, b2[j2].queue[l].id));
            } else if j2 == i && l == b[i].queue.len() {
                assert(b2[j2].queue[l] == o);
                assert(queue_has_id(b[j].queue, b2[j].queue[k].id));
                assert(book_has_id(b, b2[j].queue[k].id));
            } else {
                assert(b2[j].queue[k] == b[j].queue[k]);
                assert(b2[j2].queue[l] == b[j2].queue[l]);
            }
        }
        assert forall|x: OrderId|
            #[trigger] book_has_id(b2, x) <==> book_has_id(b, x) || x == o.id by {
            if book_has_id(b2, x) {
                let j = choose|j: int|
                    0 <= j < b2.len() && queue_has_id((#[trigger] b2[j]).queue, x);
                let k = choose|k: int|
                    0 <= k < b2[j].queue.len() && (#[trigger] b2[j].queue[k]).id == x;
                if j == i && k == b[i].queue.len() {
                    assert(x == o.id);
                } else {
                    assert(b2[j].queue[k] == b[j].queue[k]);
                    assert(queue_has_id(b[j].queue, x));
                    assert(book_has_id(b, x));
                }
            }
            if book_has_id(b, x) {
                let j = choose|j: int|
                    0 <= j < b.len() && queue_has_id((#[trigger] b[j]).queue, x);
                let k = choose|k: int|
                    0 <= k < b[j].queue.len() && (#[trigger] b[j].queue[k]).id == x;
                assert(b2[j].queue[k] == b[j].queue[k]);
                assert(queue_has_id(b2[j].queue, x));
                assert(book_has_id(b2, x));
            }
            if x == o.id {
                assert(b2[i].queue[b[i].queue.len() as int] == o);
                assert(queue_has_id(b2[i].queue, x));
                assert(book_has_id(b2, x));
            }
        }
    } else {
        let lvl = LevelModel { price, queue: seq![o] };
        assert(b2 == b.insert(i, lvl));
        assert(forall|j: int| 0 <= j < i ==> b2[j] == b[j]);
        assert(b2[i] == lvl);
        assert(forall|j: int| i < j < b2.len() ==> b2[j] == b[j - 1]);
        assert(i < b.len() ==> b[i].price > price);
        assert forall|j: int, j2: int| 0 <= j < j2 < b2.len() implies (#[trigger] b2[j]).price < (
        #[trigger] b2[j2]).price by {}
        assert forall|j: int, k: int, j2: int, l: int|
            0 <= j < b2.len() && 0 <= k < b2[j].queue.len() && 0 <= j2 < b2.len() && 0 <= l
            < b2[j2].queue.len() && (j != j2 || k != l) implies (#[trigger] b2[j].queue[k]).id
            != (#[trigger] b2[j2].queue[l]).id by {
            if j == i && j2 != i {
                let j3 = if j2 < i { j2 } else { j2 - 1 };
                assert(b2[j2] == b[j3]);
                assert(queue_has_id(b[j3].queue, b2[j2].queue[l].id));
                assert(book_has_id(b, b2[j2].queue[l].id));
            } else if j2 == i && j != i {
                let j3 = if j < i { j } else { j - 1 };
                assert(b2[j] == b[j3]);
                assert(queue_has_id(b[j3].queue, b2[j].queue[k].id));
                assert(book_has_id(b, b2[j].queue[k].id));
            } else if j != i && j2 != i {
                let j3 = if j < i { j } else { j - 1 };
                let j4 = if j2 < i { j2 } else { j2 - 1 };
                assert(b2[j] == b[j3] && b2[j2] == b[j4]);
                assert(b[j3].queue[k].id != b[j4].queue[l].id);
            }
        }
        assert forall|x: OrderId|
            #[trigger] book_has_id(b2, x) <==> book_has_id(b, x) || x == o.id by {
            if book_has_id(b2, x) {
                let j = choose|j: int|
                    0 <= j < b2.len() && queue_has_id((#[trigger] b2[j]).queue, x);
                if j == i {
                    let k = choose|k: int|
                        0 <= k < b2[j].queue.len() && (#[trigger] b2[j].queue[k]).id == x;
                    assert(x == o.id);
                } else {
                    let j3 = if j < i { j } else { j - 1 };
                    assert(b2[j] == b[j3]);
                    assert(book_has_id(b, x));
                }
            }
            if book_has_id(b, x) {
                let j = choose|j: int|
                    0 <= j < b.len() && queue_has_id((#[trigger] b[j]).queue, x);
                let j3 = if j < i { j } else { j + 1 };
                assert(b2[j3] == b[j]);
                assert(book_has_id(b2, x));
            }
            if x == o.id {
                assert(b2[i].queue[0] == o);
                assert(queue_has_id(b2[i].queue, x));
                assert(book_has_id(b2, x));
            }
        }
    }
}

/// Removing one order keeps the book well formed, takes exactly that id
/// out, and moves the extreme prices only inward.
pub proof fn lemma_book_remove_wf(b: BookModel, id: OrderId)
    requires
        book_wf(b),
    ensures
        ({
            let b2 = book_remove(b, id);
            &&& book_wf(b2)
            &&& !book_has_id(b2, id)
            &&& forall|x: OrderId| #[trigger] book_has_id(b2, x) ==> book_has_id(b, x)
            &&& forall|x: OrderId|
                book_has_id(b, x) && x != id ==> #[trigger] book_has_id(b2, x)
            &&& b2.len() <= b.len()
            &&& (b2.len() > 0 ==> b2[b2.len() - 1].price <= b[b.len() - 1].price && b2[0].price
                >= b[0].price)
        }),
{
    let b2 = book_remove(b, id);
    if !book_has_id(b, id) {
    } else {
        lemma_level_of_id_bounds(b, id);
        let i = level_of_id(b, id);
        lemma_pos_in_queue_bounds(b[i].queue, id);
        let k = pos_in_queue(b[i].queue, id);
        let q2 = b[i].queue.remove(k);
        assert(forall|l: int| 0 <= l < k ==> q2[l] == b[i].queue[l]);
        assert(forall|l: int| k <= l < q2.len() ==> q2[l] == b[i].queue[l + 1]);
        if q2.len() == 0 {
            lemma_remove_level(b, i);
            assert(b2 == b.remove(i));
            assert(b[i].queue.len() == 1);
            assert(!book_has_id(b2, id));
            assert forall|x: OrderId|
                book_has_id(b, x) && x != id implies #[trigger] book_has_id(b2, x) by {
                let j = choose|j: int|
                    0 <= j < b.len() && queue_has_id((#[trigger] b[j]).queue, x);
                if j == i {
                    let l = choose|l: int|
                        0 <= l < b[j].queue.len() && (#[trigger] b[j].queue[l]).id == x;
                    assert(l == k);
                    assert(false);
                } else {
                    let j3 = if j < i { j } else { j - 1 };
                    assert(b2[j3] == b[j]);
                    assert(book_has_id(b2, x));
                }
            }
            assert(b2.len() > 0 ==> b2[b2.len() - 1].price <= b[b.len() - 1].price && b2[0].price
                >= b[0].price) by {
                if b2.len() > 0 {
                    if i == b.len() - 1 {
                        assert(b2[b2.len() - 1] == b[b.len() - 2]);
                    } else {
                        assert(b2[b2.len() - 1] == b[b.len() - 1]);
                    }
                    if i == 0 {
                        assert(b2[0] == b[1]);
                    } else {
                        assert(b2[0] == b[0]);
                    }
                }
            }
        } else {
            let lvl2 = LevelModel { price: b[i].price, queue: q2 };
            assert(b2 == b.update(i, lvl2));
            assert(forall|j: int| 0 <= j < b2.len() && j != i ==> b2[j] == b[j]);
            assert forall|j: int, k1: int, j2: int, l: int|
                0 <= j < b2.len() && 0 <= k1 < b2[j].queue.len() && 0 <= j2 < b2.len() && 0 <= l
                < b2[j2].queue.len() && (j != j2 || k1 != l) implies (#[trigger] b2[j].queue[k1]).id
                != (#[trigger] b2[j2].queue[l]).id by {
                let k2 = if j == i && k1 >= k { k1 + 1 } else { k1 };
                let l2 = if j2 == i && l >= k { l + 1 } else { l };
                assert(b2[j].queue[k1] == b[j].queue[k2]);
                assert(b2[j2].queue[l] == b[j2].queue[l2]);
                assert(b[j].queue[k2].id != b[j2].queue[l2].id);
            }
            assert(!book_has_id(b2, id)) by {
                if book_has_id(b2, id) {
                    let j = choose|j: int|
                        0 <= j < b2.len() && queue_has_id((#[trigger] b2[j]).queue, id);
                    let l = choose|l: int|
                        0 <= l < b2[j].queue.len() && (#[trigger] b2[j].queue[l]).id == id;
                    let l2 = if j == i && l >= k { l + 1 } else { l };
                    assert(b2[j].queue[l] == b[j].queue[l2]);
                    assert(b[j].queue[l2].id == b[i].queue[k].id);
                    assert(j == i && l2 == k);
                    assert(false);
                }
            }
            assert forall|x: OrderId| #[trigger] book_has_id(b2, x) implies book_has_id(b, x) by {
                let j = choose|j: int|
                    0 <= j < b2.len() && queue_has_id((#[trigger] b2[j]).queue, x);
                let l = choose|l: int|
                    0 <= l < b2[j].queue.len() && (#[trigger] b2[j].queue[l]).id == x;
                let l2 = if j == i && l >= k { l + 1 } else { l };
                assert(b2[j].queue[l] == b[j].queue[l2]);
                assert(queue_has_id(b[j].queue, x));
            }
            assert forall|x: OrderId|
                book_has_id(b, x) && x != id implies #[trigger] book_has_id(b2, x) by {
                let j = choose|j: int|
                    0 <= j < b.len() && queue_has_id((#[trigger] b[j]).queue, x);
                let l = choose|l: int|
                    0 <= l < b[j].queue.len() && (#[trigger] b[j].queue[l]).id == x;
                if j == i {
                    assert(l != k);
                    let l2 = if l > k { l - 1 } else { l };
                    assert(b2[j].queue[l2] == b[j].queue[l]);
                    assert(queue_has_id(b2[j].queue, x));
                } else {
                    assert(b2[j] == b[j]);
                    assert(queue_has_id(b2[j].queue, x));
                }
            }
        }
    }
}

/// Inserting a fresh order and then removing it by id restores the book
/// exactly: the level it joined loses it again, and a level created for
/// it disappears with it.
pub proof fn lemma_insert_then_remove(b: BookModel, price: OrderPrice, o: OrderbookOrder)
    requires
        book_wf(b),
        !book_has_id(b, o.id),
        o.remaining_volume > 0,
    ensures
        book_remove(book_insert(b, price, o), o.id) == b,
{
    lemma_insert_pos_bounds(b, price);
    lemma_book_insert_wf(b, price, o);
    let i = insert_pos(b, price);
    let b2 = book_insert(b, price, o);
    lemma_level_of_id_bounds(b2, o.id);
    assert forall|j: int| 0 <= j < b.len() implies !queue_has_id((#[trigger] b[j]).queue, o.id) by {
        if queue_has_id(b[j].queue, o.id) {
            assert(book_has_id(b, o.id));
        }
    }
    assert(book_has_id(b2, o.id));
    if i < b.len() && b[i].price == price {
        assert(b2 == b.update(i, LevelModel { price, queue: b[i].queue.push(o) }));
        assert(queue_has_id(b2[i].queue, o.id)) by {
            assert(b2[i].queue[b[i].queue.len() as int] == o);
        }
        let li = level_of_id(b2, o.id);
        assert(li == i) by {
            if li < i {
                assert(b2[li] == b[li]);
                assert(!queue_has_id(b2[li].queue, o.id));
                assert(queue_has_id(b2[li].queue, o.id));
            }
            if i < li {
                assert(!queue_has_id(b2[i].queue, o.id));
            }
        }
        lemma_pos_in_queue_bounds(b2[i].queue, o.id);
        let pk = pos_in_queue(b2[i].queue, o.id);
        assert(pk == b[i].queue.len()) by {
            if pk < b[i].queue.len() {
                assert(b2[i].queue[pk] == b[i].queue[pk]);
                assert(queue_has_id(b[i].queue, o.id));
            }
        }
        let q2 = b2[i].queue.remove(pk);
        assert(q2 =~= b[i].queue);
        assert(q2.len() > 0);
        assert(book_remove(b2, o.id) == b2.update(
            i,
            LevelModel { price: b2[i].price, queue: q2 },
        ));
        assert(LevelModel { price: b2[i].price, queue: q2 } == b[i]);
        assert(b2.update(i, LevelModel { price: b2[i].price, queue: q2 }) =~= b);
    } else {
        let lvl = LevelModel { price, queue: seq![o] };
        assert(b2 == b.insert(i, lvl));
        assert(b2[i] == lvl);
        assert(queue_has_id(b2[i].queue, o.id)) by {
            assert(b2[i].queue[0] == o);
        }
        assert(forall|j: int| 0 <= j < i ==> b2[j] == b[j]);
        assert(forall|j: int| i < j < b2.len() ==> b2[j] == b[j - 1]);
        let li = level_of_id(b2, o.id);
        assert(li == i) by {
            if li < i {
                assert(b2[li] == b[li]);
                assert(!queue_has_id(b2[li].queue, o.id));
                assert(queue_has_id(b2[li].queue, o.id));
            }
            if i < li {
                assert(!queue_has_id(b2[i].queue, o.id));
            }
        }
        lemma_pos_in_queue_bounds(b2[i].queue, o.id);
        let pk = pos_in_queue(b2[i].queue, o.id);
        assert(pk == 0);
        let q2 = b2[i].queue.remove(pk);
        assert(q2.len() == 0);
        assert(book_remove(b2, o.id) == b2.remove(i));
        assert(b2.remove(i) =~= b);
    }
}

/// `pos_in_queue` is characterised by membership: no earlier position
/// holds the id, and when the queue holds it at all, the indexed one does.
pub proof fn lemma_pos_in_queue_bounds(q: Seq<OrderbookOrder>, id: OrderId)
    ensures
        0 <= pos_in_queue(q, id) <= q.len(),
        forall|k: int| 0 <= k < pos_in_queue(q, id) ==> (#[trigger] q[k]).id != id,
        queue_has_id(q, id) <==> (pos_in_queue(q, id) < q.len() && q[pos_in_queue(q, id)].id
            == id),
    decreases q.len(),
{
    if q.len() == 0 {
    } else if q[0].id == id {
    } else {
        lemma_pos_in_queue_bounds(q.drop_first(), id);
        assert forall|k: int| 0 <= k < pos_in_queue(q, id) implies (#[trigger] q[k]).id != id by {
            if k > 0 {
                assert(q.drop_first()[k - 1] == q[k]);
            }
        }
        if queue_has_id(q.drop_first(), id) {
            let k = pos_in_queue(q.drop_first(), id);
            assert(q[k + 1] == q.drop_first()[k]);
            assert(queue_has_id(q, id));
        }
        if queue_has_id(q, id) {
            let k = choose|k: int| 0 <= k < q.len() && (#[trigger] q[k]).id == id;
            assert(k > 0);
            assert(q.drop_first()[k - 1] == q[k]);
            assert(queue_has_id(q.drop_first(), id));
        }
    }
}

} // verus!
