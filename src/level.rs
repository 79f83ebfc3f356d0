use vstd::prelude::*;
use crate::types::{Order, PriceLevel, Side, UNDEF_PRICE};

verus! {

/// A price level: a FIFO queue of resting entries at one price.
pub struct Level {
    pub price: i64,
    pub orders: Vec<Order>,
}

/// `a` ranks ahead of `b` on `side`: higher for bids, lower for asks.
pub open spec fn better(side: Side, a: i64, b: i64) -> bool {
    if side == Side::Bid {
        a > b
    } else {
        a < b
    }
}

/// Levels are strictly ordered best first, none is empty, none is at `UNDEF_PRICE`.
pub open spec fn side_ok(lv: Seq<Level>, side: Side) -> bool {
    &&& forall|i: int, j: int|
        0 <= i < j < lv.len() ==> better(side, #[trigger] lv[i].price, #[trigger] lv[j].price)
    &&& forall|i: int| 0 <= i < lv.len() ==> (#[trigger] lv[i]).orders@.len() > 0
    &&& forall|i: int| 0 <= i < lv.len() ==> (#[trigger] lv[i]).price != UNDEF_PRICE
}

pub open spec fn has_level(lv: Seq<Level>, p: i64) -> bool {
    exists|i: int| 0 <= i < lv.len() && (#[trigger] lv[i]).price == p
}

/// The queue resting at price `p`; empty where no level has that price.
pub open spec fn queue_of(lv: Seq<Level>, p: i64) -> Seq<Order> {
    if has_level(lv, p) {
        lv[choose|i: int| 0 <= i < lv.len() && (#[trigger] lv[i]).price == p].orders@
    } else {
        Seq::empty()
    }
}

pub open spec fn counted(o: Order) -> nat {
    if o.synthetic {
        0
    } else {
        1
    }
}

/// Number of counted (non-synthetic) entries of a queue.
pub open spec fn tracked_in_queue(q: Seq<Order>) -> nat
    decreases q.len(),
{
    if q.len() == 0 {
        0
    } else {
        tracked_in_queue(q.drop_last()) + counted(q.last())
    }
}

/// Number of counted entries over all levels of a side.
pub open spec fn tracked_in_levels(lv: Seq<Level>) -> nat
    decreases lv.len(),
{
    if lv.len() == 0 {
        0
    } else {
        tracked_in_levels(lv.drop_last()) + tracked_in_queue(lv.last().orders@)
    }
}

/// Sum of the sizes of a queue.
pub open spec fn size_sum(q: Seq<Order>) -> nat
    decreases q.len(),
{
    if q.len() == 0 {
        0
    } else {
        size_sum(q.drop_last()) + q.last().size as nat
    }
}

pub open spec fn saturate(n: nat) -> u32 {
    if n > u32::MAX {
        u32::MAX
    } else {
        n as u32
    }
}

/// The aggregate of a queue at `price`.
pub open spec fn level_stats(price: i64, q: Seq<Order>) -> PriceLevel {
    PriceLevel { price, size: saturate(size_sum(q)), count: saturate(tracked_in_queue(q)) }
}

pub proof fn lemma_queue_of_at(lv: Seq<Level>, side: Side, i: int)
    requires
        side_ok(lv, side),
        0 <= i < lv.len(),
    ensures
        has_level(lv, lv[i].price),
        queue_of(lv, lv[i].price) == lv[i].orders@,
{
    let p = lv[i].price;
    assert(has_level(lv, p));
    let k = choose|k: int| 0 <= k < lv.len() && (#[trigger] lv[k]).price == p;
    if k < i {
        assert(better(side, lv[k].price, lv[i].price));
    } else if k > i {
        assert(better(side, lv[i].price, lv[k].price));
    }
}

pub proof fn lemma_tracked_queue_remove(q: Seq<Order>, j: int)
    requires
        0 <= j < q.len(),
    ensures
        tracked_in_queue(q.remove(j)) + counted(q[j]) == tracked_in_queue(q),
    decreases q.len(),
{
    if j == q.len() - 1 {
        assert(q.remove(j) =~= q.drop_last());
    } else {
        lemma_tracked_queue_remove(q.drop_last(), j);
        assert(q.remove(j).drop_last() =~= q.drop_last().remove(j));
    }
}

pub proof fn lemma_tracked_queue_update(q: Seq<Order>, j: int, o: Order)
    requires
        0 <= j < q.len(),
    ensures
        tracked_in_queue(q.update(j, o)) + counted(q[j]) == tracked_in_queue(q) + counted(o),
    decreases q.len(),
{
    if j == q.len() - 1 {
        assert(q.update(j, o).drop_last() =~= q.drop_last());
    } else {
        lemma_tracked_queue_update(q.drop_last(), j, o);
        assert(q.update(j, o).drop_last() =~= q.drop_last().update(j, o));
    }
}

pub proof fn lemma_tracked_queue_push(q: Seq<Order>, o: Order)
    ensures
        tracked_in_queue(q.push(o)) == tracked_in_queue(q) + counted(o),
{
    assert(q.push(o).drop_last() =~= q);
}

pub proof fn lemma_tracked_levels_update(lv: Seq<Level>, i: int, l: Level)
    requires
        0 <= i < lv.len(),
    ensures
        tracked_in_levels(lv.update(i, l)) + tracked_in_queue(lv[i].orders@) == tracked_in_levels(
            lv,
        ) + tracked_in_queue(l.orders@),
    decreases lv.len(),
{
    if i == lv.len() - 1 {
        assert(lv.update(i, l).drop_last() =~= lv.drop_last());
    } else {
        lemma_tracked_levels_update(lv.drop_last(), i, l);
        assert(lv.update(i, l).drop_last() =~= lv.drop_last().update(i, l));
    }
}

pub proof fn lemma_tracked_levels_insert(lv: Seq<Level>, i: int, l: Level)
    requires
        0 <= i <= lv.len(),
    ensures
        tracked_in_levels(lv.insert(i, l)) == tracked_in_levels(lv) + tracked_in_queue(l.orders@),
    decreases lv.len(),
{
    if i == lv.len() {
        assert(lv.insert(i, l).drop_last() =~= lv);
    } else {
        lemma_tracked_levels_insert(lv.drop_last(), i, l);
        assert(lv.insert(i, l).drop_last() =~= lv.drop_last().insert(i, l));
    }
}

pub proof fn lemma_tracked_levels_remove(lv: Seq<Level>, i: int)
    requires
        0 <= i < lv.len(),
    ensures
        tracked_in_levels(lv.remove(i)) + tracked_in_queue(lv[i].orders@) == tracked_in_levels(lv),
    decreases lv.len(),
{
    if i == lv.len() - 1 {
        assert(lv.remove(i) =~= lv.drop_last());
    } else {
        lemma_tracked_levels_remove(lv.drop_last(), i);
        assert(lv.remove(i).drop_last() =~= lv.drop_last().remove(i));
    }
}

/// Index of the level at `price`, if there is one.
pub fn find_level(lv: &Vec<Level>, price: i64) -> (r: Option<usize>)
    ensures
        match r {
            Some(i) => i < lv@.len() && lv@[i as int].price == price,
            None => !has_level(lv@, price),
        },
{
    let mut i: usize = 0;
    while i < lv.len()
        invariant
            i <= lv@.len(),
            forall|k: int| 0 <= k < i ==> (#[trigger] lv@[k]).price != price,
        decreases lv@.len() - i,
    {
        if lv[i].price == price {
            return Some(i);
        }
        i = i + 1;
    }
    None
}

/// The aggregate of a queue, computed with saturating sums.
pub fn stats_of(price: i64, q: &Vec<Order>) -> (r: PriceLevel)
    ensures
        r == level_stats(price, q@),
{
    let mut size: u32 = 0;
    let mut count: u32 = 0;
    let mut k: usize = 0;
    while k < q.len()
        invariant
            k <= q@.len(),
            size == saturate(size_sum(q@.take(k as int))),
            count == saturate(tracked_in_queue(q@.take(k as int))),
        decreases q@.len() - k,
    {
        assert(q@.take(k as int + 1).drop_last() =~= q@.take(k as int));
        let o = q[k];
        size = size.saturating_add(o.size);
        if !o.synthetic {
            count = count.saturating_add(1);
        }
        k = k + 1;
    }
    assert(q@.take(k as int) =~= q@);
    PriceLevel { price, size, count }
}

pub fn is_better(side: Side, a: i64, b: i64) -> (r: bool)
    ensures
        r == better(side, a, b),
{
    match side {
        Side::Bid => a > b,
        _ => a < b,
    }
}

/// Where the levels at index `i` of `old` and `new` may differ, every other
/// price keeps its queue.
proof fn lemma_queues_after_update(old: Seq<Level>, new: Seq<Level>, side: Side, i: int)
    requires
        side_ok(old, side),
        side_ok(new, side),
        0 <= i < old.len(),
        new.len() == old.len(),
        new[i].price == old[i].price,
        forall|k: int| 0 <= k < old.len() && k != i ==> new[k] == old[k],
    ensures
        forall|p: i64|
            #![trigger queue_of(new, p)]
            p != old[i].price ==> queue_of(new, p) == queue_of(old, p),
        queue_of(new, old[i].price) == new[i].orders@,
{
    lemma_queue_of_at(new, side, i);
    assert forall|p: i64| #![trigger queue_of(new, p)] p != old[i].price implies queue_of(new, p)
        == queue_of(old, p) by {
        if has_level(old, p) {
            let k = choose|k: int| 0 <= k < old.len() && (#[trigger] old[k]).price == p;
            lemma_queue_of_at(old, side, k);
            lemma_queue_of_at(new, side, k);
        } else if has_level(new, p) {
            let k = choose|k: int| 0 <= k < new.len() && (#[trigger] new[k]).price == p;
            assert(old[k].price == p);
        }
    }
}

/// Append `o` to the queue at `price`, creating the level where it is missing.
pub fn insert_order(lv: &mut Vec<Level>, side: Side, price: i64, o: Order)
    requires
        side_ok(old(lv)@, side),
        price != UNDEF_PRICE,
    ensures
        side_ok(final(lv)@, side),
        forall|p: i64|
            #![trigger queue_of(final(lv)@, p)]
            queue_of(final(lv)@, p) == if p == price {
                queue_of(old(lv)@, p).push(o)
            } else {
                queue_of(old(lv)@, p)
            },
        tracked_in_levels(final(lv)@) == tracked_in_levels(old(lv)@) + counted(o),
{
    let ghost old_lv = lv@;
    let mut i: usize = 0;
    while i < lv.len() && is_better(side, lv[i].price, price)
        invariant
            lv@ == old_lv,
            i <= lv@.len(),
            forall|k: int| 0 <= k < i ==> better(side, (#[trigger] lv@[k]).price, price),
        decreases lv@.len() - i,
    {
        i = i + 1;
    }
    if i < lv.len() && lv[i].price == price {
        lv[i].orders.push(o);
        proof {
            assert forall|k: int| 0 <= k < lv@.len() && k != i implies lv@[k] == old_lv[k] by {}
            lemma_queue_of_at(old_lv, side, i as int);
            lemma_queues_after_update(old_lv, lv@, side, i as int);
            lemma_tracked_levels_update(old_lv, i as int, lv@[i as int]);
            lemma_tracked_queue_push(old_lv[i as int].orders@, o);
            assert(lv@ == old_lv.update(i as int, lv@[i as int]));
        }
    } else {
        let mut orders: Vec<Order> = Vec::new();
        orders.push(o);
        let level = Level { price, orders };
        lv.insert(i, level);
        proof {
            let new = lv@;
            assert(new == old_lv.insert(i as int, level));
            lemma_tracked_levels_insert(old_lv, i as int, level);
            lemma_tracked_queue_push(Seq::empty(), o);
            assert(level.orders@ =~= Seq::<Order>::empty().push(o));
            assert forall|k: int| i < k < new.len() implies better(side, price, (#[trigger] new[k]).price) by {
                assert(new[k] == old_lv[k - 1]);
                assert(better(side, price, old_lv[i as int].price));
                if k - 1 > i {
                    assert(better(side, old_lv[i as int].price, old_lv[k - 1].price));
                }
            }
            assert forall|a: int, b: int| 0 <= a < b < new.len() implies better(side, #[trigger] new[a].price, #[trigger] new[b].price) by {
                if b < i {
                } else if b == i {
                } else if a < i {
                    assert(better(side, new[a].price, price));
                    assert(better(side, price, new[b].price));
                } else if a == i {
                } else {
                    assert(new[a] == old_lv[a - 1]);
                    assert(new[b] == old_lv[b - 1]);
                }
            }
            assert forall|k: int| 0 <= k < new.len() implies (#[trigger] new[k]).orders@.len() > 0 && new[k].price != UNDEF_PRICE by {
                if k > i {
                    assert(new[k] == old_lv[k - 1]);
                }
            }
            assert(side_ok(new, side));
            lemma_queue_of_at(new, side, i as int);
            assert(!has_level(old_lv, price)) by {
                if has_level(old_lv, price) {
                    let k = choose|k: int| 0 <= k < old_lv.len() && (#[trigger] old_lv[k]).price == price;
                    assert(new[k + 1] == old_lv[k]);
                    assert(better(side, price, new[k + 1].price) || better(side, new[k].price, price));
                }
            }
            assert forall|p: i64| #![trigger queue_of(new, p)] p != price implies queue_of(new, p)
                == queue_of(old_lv, p) by {
                if has_level(old_lv, p) {
                    let k = choose|k: int| 0 <= k < old_lv.len() && (#[trigger] old_lv[k]).price == p;
                    lemma_queue_of_at(old_lv, side, k);
                    if k < i {
                        assert(new[k] == old_lv[k]);
                        lemma_queue_of_at(new, side, k);
                    } else {
                        assert(new[k + 1] == old_lv[k]);
                        lemma_queue_of_at(new, side, k + 1);
                    }
                } else if has_level(new, p) {
                    let k = choose|k: int| 0 <= k < new.len() && (#[trigger] new[k]).price == p;
                    if k < i {
                        assert(old_lv[k].price == p);
                    } else {
                        assert(old_lv[k - 1].price == p);
                    }
                }
            }
        }
    }
}

/// Remove entry `j` of level `i`, and the level too where it becomes empty.
pub fn remove_order_at(lv: &mut Vec<Level>, side: Side, i: usize, j: usize)
    requires
        side_ok(old(lv)@, side),
        i < old(lv)@.len(),
        j < old(lv)@[i as int].orders@.len(),
    ensures
        side_ok(final(lv)@, side),
        forall|p: i64|
            #![trigger queue_of(final(lv)@, p)]
            queue_of(final(lv)@, p) == if p == old(lv)@[i as int].price {
                queue_of(old(lv)@, p).remove(j as int)
            } else {
                queue_of(old(lv)@, p)
            },
        tracked_in_levels(final(lv)@) + counted(old(lv)@[i as int].orders@[j as int])
            == tracked_in_levels(old(lv)@),
{
    let ghost old_lv = lv@;
    let ghost price = old_lv[i as int].price;
    proof {
        lemma_queue_of_at(old_lv, side, i as int);
        lemma_tracked_queue_remove(old_lv[i as int].orders@, j as int);
    }
    lv[i].orders.remove(j);
    let ghost mid = lv@;
    proof {
        assert(mid == old_lv.update(i as int, mid[i as int]));
        lemma_tracked_levels_update(old_lv, i as int, mid[i as int]);
    }
    if lv[i].orders.len() == 0 {
        lv.remove(i);
        proof {
            let new = lv@;
            assert(new == mid.remove(i as int));
            lemma_tracked_levels_remove(mid, i as int);
            assert forall|a: int, b: int| 0 <= a < b < new.len() implies better(side, #[trigger] new[a].price, #[trigger] new[b].price) by {
                let a0 = if a < i { a } else { a + 1 };
                let b0 = if b < i { b } else { b + 1 };
                assert(new[a] == old_lv[a0]);
                assert(new[b] == old_lv[b0]);
            }
            assert forall|k: int| 0 <= k < new.len() implies (#[trigger] new[k]).orders@.len() > 0 && new[k].price != UNDEF_PRICE by {
                let k0 = if k < i { k } else { k + 1 };
                assert(new[k] == old_lv[k0]);
            }
            assert(!has_level(new, price)) by {
                if has_level(new, price) {
                    let k = choose|k: int| 0 <= k < new.len() && (#[trigger] new[k]).price == price;
                    let k0 = if k < i { k } else { k + 1 };
                    assert(new[k] == old_lv[k0]);
                    assert(better(side, old_lv[k0].price, price) || better(side, price, old_lv[k0].price));
                }
            }
            assert(queue_of(old_lv, price).remove(j as int) =~= Seq::<Order>::empty());
            assert forall|p: i64| #![trigger queue_of(new, p)] p != price implies queue_of(new, p)
                == queue_of(old_lv, p) by {
                if has_level(old_lv, p) {
                    let k = choose|k: int| 0 <= k < old_lv.len() && (#[trigger] old_lv[k]).price == p;
                    lemma_queue_of_at(old_lv, side, k);
                    if k < i {
                        assert(new[k] == old_lv[k]);
                        lemma_queue_of_at(new, side, k);
                    } else {
                        assert(k != i);
                        assert(new[k - 1] == old_lv[k]);
                        lemma_queue_of_at(new, side, k - 1);
                    }
                } else if has_level(new, p) {
                    let k = choose|k: int| 0 <= k < new.len() && (#[trigger] new[k]).price == p;
                    let k0 = if k < i { k } else { k + 1 };
                    assert(new[k] == old_lv[k0]);
                }
            }
        }
    } else {
        proof {
            assert forall|k: int| 0 <= k < mid.len() && k != i implies mid[k] == old_lv[k] by {}
            lemma_queues_after_update(old_lv, mid, side, i as int);
        }
    }
}

/// Give entry `j` of level `i` the size `size`, in place.
pub fn set_order_size(lv: &mut Vec<Level>, side: Side, i: usize, j: usize, size: u32)
    requires
        side_ok(old(lv)@, side),
        i < old(lv)@.len(),
        j < old(lv)@[i as int].orders@.len(),
    ensures
        side_ok(final(lv)@, side),
        forall|p: i64|
            #![trigger queue_of(final(lv)@, p)]
            queue_of(final(lv)@, p) == if p == old(lv)@[i as int].price {
                queue_of(old(lv)@, p).update(
                    j as int,
                    Order { size, ..old(lv)@[i as int].orders@[j as int] },
                )
            } else {
                queue_of(old(lv)@, p)
            },
        tracked_in_levels(final(lv)@) == tracked_in_levels(old(lv)@),
{
    let ghost old_lv = lv@;
    let mut o = lv[i].orders[j];
    o.size = size;
    lv[i].orders.set(j, o);
    proof {
        lemma_queue_of_at(old_lv, side, i as int);
        assert forall|k: int| 0 <= k < lv@.len() && k != i implies lv@[k] == old_lv[k] by {}
        lemma_queues_after_update(old_lv, lv@, side, i as int);
        lemma_tracked_queue_update(old_lv[i as int].orders@, j as int, o);
        lemma_tracked_levels_update(old_lv, i as int, lv@[i as int]);
        assert(lv@ == old_lv.update(i as int, lv@[i as int]));
    }
}

} // verus!
