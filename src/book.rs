use vstd::prelude::*;
use std::collections::HashMap;
use crate::types::{
    Applied, BidAskPair, BookError, ErrorKind, Event, Action, Order, OrderKey, PriceLevel,
    RestingOrder, Side, UNDEF_PRICE, empty_level_pair,
};
use crate::level::{
    Level, side_ok, queue_of, level_stats, size_sum, saturate, tracked_in_levels,
    lemma_queue_of_at, find_level, stats_of, insert_order, remove_order_at, set_order_size,
    has_level, tracked_in_queue,
};

verus! {

broadcast use vstd::std_specs::hash::group_hash_axioms;

/// Order book of one instrument on one venue.
pub struct Book {
    orders_by_id: HashMap<u64, OrderKey>,
    offers: Vec<Level>,
    bids: Vec<Level>,
}

pub open spec fn is_side(s: Side) -> bool {
    s == Side::Bid || s == Side::Ask
}

/// Order `id` rests, individually tracked, in queue `q`.
pub open spec fn rests_in(q: Seq<Order>, id: u64) -> bool {
    exists|j: int| 0 <= j < q.len() && (#[trigger] q[j]).order_id == id && !q[j].synthetic
}

/// The position of order `id` in queue `q`.
pub open spec fn order_pos(q: Seq<Order>, id: u64) -> int {
    choose|j: int| 0 <= j < q.len() && (#[trigger] q[j]).order_id == id && !q[j].synthetic
}

/// The aggregate of the level of rank `rank` in `lv`, if there is one.
pub open spec fn level_at_rank(lv: Seq<Level>, rank: int) -> Option<PriceLevel> {
    if 0 <= rank < lv.len() {
        Some(level_stats(lv[rank].price, lv[rank].orders@))
    } else {
        None
    }
}

pub open spec fn pair_of(bid: Option<PriceLevel>, ask: Option<PriceLevel>) -> BidAskPair {
    let e = empty_level_pair();
    let with_bid = match bid {
        Some(b) => BidAskPair { bid_px: b.price, bid_sz: b.size, bid_ct: b.count, ..e },
        None => e,
    };
    match ask {
        Some(a) => BidAskPair { ask_px: a.price, ask_sz: a.size, ask_ct: a.count, ..with_bid },
        None => with_bid,
    }
}

/// Some individually tracked entry before position (`i`, `j`) of `lv` is order `id`.
pub open spec fn removed_before(lv: Seq<Level>, i: int, j: int, id: u64) -> bool {
    exists|a: int, b: int|
        0 <= a < lv.len() && 0 <= b < lv[a].orders@.len() && (a < i || (a == i && b < j))
            && (#[trigger] lv[a].orders@[b]).order_id == id && !lv[a].orders@[b].synthetic
}

/// The error, if any, with which an add (or a modify applied as an add) is rejected.
pub open spec fn add_error(b: Book, ev: Event) -> Option<ErrorKind> {
    if !is_side(ev.side) {
        Some(ErrorKind::InvalidInput)
    } else if ev.is_top_of_book {
        None
    } else if ev.price == UNDEF_PRICE {
        Some(ErrorKind::InvalidInput)
    } else if b.index().contains_key(ev.order_id) {
        Some(ErrorKind::ProtocolViolation)
    } else {
        None
    }
}

/// The queue at (`s`, `p`) after an accepted add.
pub open spec fn added_queue(b: Book, ev: Event, s: Side, p: i64) -> Seq<Order> {
    if ev.is_top_of_book {
        if s == ev.side {
            if p == ev.price && p != UNDEF_PRICE {
                seq![Order { order_id: ev.order_id, size: ev.size, synthetic: true }]
            } else {
                Seq::empty()
            }
        } else {
            b.queue(s, p)
        }
    } else if s == ev.side && p == ev.price {
        b.queue(s, p).push(Order { order_id: ev.order_id, size: ev.size, synthetic: false })
    } else {
        b.queue(s, p)
    }
}

/// The resting entry of order `id` (meaningful where the index holds `id`).
pub open spec fn resting_entry(b: Book, id: u64) -> Order {
    let k = b.index()[id];
    let q = b.queue(k.side, k.price);
    q[order_pos(q, id)]
}

pub open spec fn cancel_error(b: Book, ev: Event) -> Option<ErrorKind> {
    if !b.index().contains_key(ev.order_id) {
        Some(ErrorKind::LookupMiss)
    } else if ev.size > resting_entry(b, ev.order_id).size {
        Some(ErrorKind::ProtocolViolation)
    } else {
        None
    }
}

/// The queue at (`s`, `p`) after an accepted cancel: the order shrinks,
/// and leaves its queue where nothing is left of it.
pub open spec fn cancelled_queue(b: Book, ev: Event, s: Side, p: i64) -> Seq<Order> {
    let k = b.index()[ev.order_id];
    let q = b.queue(k.side, k.price);
    let j = order_pos(q, ev.order_id);
    let o = q[j];
    if s == k.side && p == k.price {
        if o.size == ev.size {
            q.remove(j)
        } else {
            q.update(j, Order { size: (o.size - ev.size) as u32, ..o })
        }
    } else {
        b.queue(s, p)
    }
}

/// A modify of a resting order keeps its place: same side and price, no larger size.
pub open spec fn keeps_priority(b: Book, ev: Event) -> bool {
    let k = b.index()[ev.order_id];
    k.side == ev.side && k.price == ev.price && ev.size <= resting_entry(b, ev.order_id).size
}

pub open spec fn modify_error(b: Book, ev: Event) -> Option<ErrorKind> {
    if !b.index().contains_key(ev.order_id) {
        add_error(b, ev)
    } else if !is_side(ev.side) || ev.price == UNDEF_PRICE {
        Some(ErrorKind::InvalidInput)
    } else {
        None
    }
}

/// The queue at (`s`, `p`) after an accepted modify.
pub open spec fn modified_queue(b: Book, ev: Event, s: Side, p: i64) -> Seq<Order> {
    if !b.index().contains_key(ev.order_id) {
        added_queue(b, ev, s, p)
    } else {
        let k = b.index()[ev.order_id];
        let q = b.queue(k.side, k.price);
        let j = order_pos(q, ev.order_id);
        if keeps_priority(b, ev) {
            if s == k.side && p == k.price {
                q.update(j, Order { size: ev.size, ..q[j] })
            } else {
                b.queue(s, p)
            }
        } else {
            let base = if s == k.side && p == k.price {
                q.remove(j)
            } else {
                b.queue(s, p)
            };
            if s == ev.side && p == ev.price {
                base.push(Order { order_id: ev.order_id, size: ev.size, synthetic: false })
            } else {
                base
            }
        }
    }
}

/// The error, if any, with which `ev` is rejected by `b`.
pub open spec fn apply_error(b: Book, ev: Event) -> Option<ErrorKind> {
    match ev.action {
        Action::Add => add_error(b, ev),
        Action::Cancel => cancel_error(b, ev),
        Action::Modify => modify_error(b, ev),
        _ => None,
    }
}

/// The queue at (`s`, `p`) once `b` has accepted `ev`.
pub open spec fn next_queue(b: Book, ev: Event, s: Side, p: i64) -> Seq<Order> {
    match ev.action {
        Action::Add => added_queue(b, ev, s, p),
        Action::Cancel => cancelled_queue(b, ev, s, p),
        Action::Modify => modified_queue(b, ev, s, p),
        Action::Clear => Seq::empty(),
        _ => b.queue(s, p),
    }
}

/// `nb` is what `b` becomes on accepting `ev`.
pub open spec fn applied(b: Book, ev: Event, nb: Book) -> bool {
    &&& nb.wf()
    &&& forall|s: Side, p: i64| #[trigger] nb.queue(s, p) == next_queue(b, ev, s, p)
}

/// The note that an accepted event carries.
pub open spec fn note_of(b: Book, ev: Event) -> Applied {
    if ev.action == Action::Modify && !b.index().contains_key(ev.order_id) {
        Applied::ModifyAsAdd
    } else {
        Applied::Normal
    }
}

/// Best bid and best ask of `b`.
pub open spec fn bbo_of(b: Book) -> (Option<PriceLevel>, Option<PriceLevel>) {
    (level_at_rank(b.levels(Side::Bid), 0), level_at_rank(b.levels(Side::Ask), 0))
}

/// `b` holds no level and no index entry.
pub open spec fn is_empty_book(b: Book) -> bool {
    &&& b.wf()
    &&& b.index() == Map::<u64, OrderKey>::empty()
    &&& forall|s: Side| #[trigger] b.levels(s).len() == 0
}

impl Book {
    /// The levels of one side, best first (none for `NoSide`).
    pub closed spec fn levels(&self, side: Side) -> Seq<Level> {
        if side == Side::Bid {
            self.bids@
        } else if side == Side::Ask {
            self.offers@
        } else {
            Seq::empty()
        }
    }

    /// The order index: order id to side and price.
    pub closed spec fn index(&self) -> Map<u64, OrderKey> {
        self.orders_by_id@
    }

    /// The queue resting at `price` on `side`.
    pub open spec fn queue(&self, side: Side, price: i64) -> Seq<Order> {
        queue_of(self.levels(side), price)
    }

    /// Total number of individually tracked resting orders.
    pub open spec fn resting_count(&self) -> nat {
        tracked_in_levels(self.levels(Side::Bid)) + tracked_in_levels(self.levels(Side::Ask))
    }

    /// The book's invariant.
    pub open spec fn wf(&self) -> bool {
        &&& side_ok(self.levels(Side::Bid), Side::Bid)
        &&& side_ok(self.levels(Side::Ask), Side::Ask)
        &&& forall|id: u64|
            #![trigger self.index().contains_key(id)]
            self.index().contains_key(id) ==> is_side(self.index()[id].side) && rests_in(
                self.queue(self.index()[id].side, self.index()[id].price),
                id,
            )
        &&& forall|s: Side, p: i64, j: int|
            #![trigger self.queue(s, p)[j]]
            0 <= j < self.queue(s, p).len() && !self.queue(s, p)[j].synthetic ==> {
                &&& self.index().contains_key(self.queue(s, p)[j].order_id)
                &&& self.index()[self.queue(s, p)[j].order_id] == (OrderKey { side: s, price: p })
            }
        &&& forall|s: Side, p: i64, a: int, b: int|
            #![trigger self.queue(s, p)[a], self.queue(s, p)[b]]
            0 <= a < self.queue(s, p).len() && 0 <= b < self.queue(s, p).len()
                && !self.queue(s, p)[a].synthetic && !self.queue(s, p)[b].synthetic
                && self.queue(s, p)[a].order_id == self.queue(s, p)[b].order_id ==> a == b
        &&& self.index().len() == self.resting_count()
    }

    pub fn new() -> (r: Book)
        ensures
            is_empty_book(r),
    {
        let r = Book { orders_by_id: HashMap::new(), offers: Vec::new(), bids: Vec::new() };
        proof {
            assert(r.index() =~= Map::<u64, OrderKey>::empty());
            assert forall|s: Side, p: i64| r.queue(s, p).len() == 0 by {}
        }
        r
    }

    /// Number of entries in the order index.
    pub fn order_count(&self) -> (r: usize)
        ensures
            r == self.index().len(),
    {
        proof {
            broadcast use vstd::std_specs::hash::axiom_spec_hash_map_len;
        }
        self.orders_by_id.len()
    }

    /// Best bid and best ask.
    pub fn bbo(&self) -> (r: (Option<PriceLevel>, Option<PriceLevel>))
        ensures
            r == bbo_of(*self),
    {
        (self.bid_level(0), self.ask_level(0))
    }

    /// The bid level of rank `idx` (0 is the highest price).
    pub fn bid_level(&self, idx: usize) -> (r: Option<PriceLevel>)
        ensures
            r == level_at_rank(self.levels(Side::Bid), idx as int),
    {
        if idx < self.bids.len() {
            Some(stats_of(self.bids[idx].price, &self.bids[idx].orders))
        } else {
            None
        }
    }

    /// The ask level of rank `idx` (0 is the lowest price).
    pub fn ask_level(&self, idx: usize) -> (r: Option<PriceLevel>)
        ensures
            r == level_at_rank(self.levels(Side::Ask), idx as int),
    {
        if idx < self.offers.len() {
            Some(stats_of(self.offers[idx].price, &self.offers[idx].orders))
        } else {
            None
        }
    }

    fn level_by_px(lv: &Vec<Level>, side: Side, px: i64) -> (r: Option<PriceLevel>)
        requires
            side_ok(lv@, side),
        ensures
            r == if queue_of(lv@, px).len() > 0 {
                Some(level_stats(px, queue_of(lv@, px)))
            } else {
                None
            },
    {
        match find_level(lv, px) {
            Some(i) => {
                proof {
                    lemma_queue_of_at(lv@, side, i as int);
                }
                Some(stats_of(px, &lv[i].orders))
            },
            None => None,
        }
    }

    /// The bid level at price `px`, if there is one.
    pub fn bid_level_by_px(&self, px: i64) -> (r: Option<PriceLevel>)
        requires
            self.wf(),
        ensures
            r == if self.queue(Side::Bid, px).len() > 0 {
                Some(level_stats(px, self.queue(Side::Bid, px)))
            } else {
                None
            },
    {
        Self::level_by_px(&self.bids, Side::Bid, px)
    }

    /// The ask level at price `px`, if there is one.
    pub fn ask_level_by_px(&self, px: i64) -> (r: Option<PriceLevel>)
        requires
            self.wf(),
        ensures
            r == if self.queue(Side::Ask, px).len() > 0 {
                Some(level_stats(px, self.queue(Side::Ask, px)))
            } else {
                None
            },
    {
        Self::level_by_px(&self.offers, Side::Ask, px)
    }

    fn side_vec(&self, side: Side) -> (r: &Vec<Level>)
        ensures
            side == Side::Bid ==> r@ == self.levels(Side::Bid),
            side != Side::Bid ==> r@ == self.levels(Side::Ask),
    {
        if side == Side::Bid {
            &self.bids
        } else {
            &self.offers
        }
    }

    /// Where order `id` rests: its key, its level's rank and its place in the queue.
    fn locate(&self, id: u64) -> (r: Option<(OrderKey, usize, usize)>)
        requires
            self.wf(),
        ensures
            match r {
                None => !self.index().contains_key(id),
                Some((k, i, j)) => {
                    &&& self.index().contains_key(id)
                    &&& k == self.index()[id]
                    &&& is_side(k.side)
                    &&& i < self.levels(k.side).len()
                    &&& self.levels(k.side)[i as int].price == k.price
                    &&& self.queue(k.side, k.price) == self.levels(k.side)[i as int].orders@
                    &&& j < self.queue(k.side, k.price).len()
                    &&& j == order_pos(self.queue(k.side, k.price), id)
                    &&& self.queue(k.side, k.price)[j as int].order_id == id
                    &&& !self.queue(k.side, k.price)[j as int].synthetic
                },
            },
    {
        let k = match self.orders_by_id.get(&id) {
            Some(k) => *k,
            None => return None,
        };
        assert(self.index().contains_key(id));
        let lv = self.side_vec(k.side);
        let ghost q = self.queue(k.side, k.price);
        assert(rests_in(q, id));
        assert(lv@ == self.levels(k.side));
        assert(has_level(lv@, k.price)) by {
            if !has_level(lv@, k.price) {
                assert(q.len() == 0);
            }
        }
        let i = match find_level(lv, k.price) {
            Some(i) => i,
            None => return None,
        };
        proof {
            lemma_queue_of_at(lv@, k.side, i as int);
        }
        let orders = &lv[i].orders;
        let mut j: usize = 0;
        while j < orders.len() && !(orders[j].order_id == id && !orders[j].synthetic)
            invariant
                orders@ == q,
                j <= q.len(),
                forall|m: int| 0 <= m < j ==> !((#[trigger] q[m]).order_id == id && !q[m].synthetic),
            decreases q.len() - j,
        {
            j = j + 1;
        }
        if j == orders.len() {
            proof {
                let m = choose|m: int| 0 <= m < q.len() && (#[trigger] q[m]).order_id == id && !q[m].synthetic;
                assert(!(q[m].order_id == id && !q[m].synthetic));
            }
            return None;
        }
        proof {
            let m = order_pos(q, id);
            assert(0 <= m < q.len() && q[m].order_id == id && !q[m].synthetic);
            assert(q[m] == self.queue(k.side, k.price)[m]);
            assert(q[j as int] == self.queue(k.side, k.price)[j as int]);
        }
        Some((k, i, j))
    }

    /// The resting order `order_id`: its side, price and remaining size.
    pub fn order(&self, order_id: u64) -> (r: Option<RestingOrder>)
        requires
            self.wf(),
        ensures
            r == if self.index().contains_key(order_id) {
                let k = self.index()[order_id];
                let q = self.queue(k.side, k.price);
                Some(
                    RestingOrder {
                        order_id,
                        side: k.side,
                        price: k.price,
                        size: q[order_pos(q, order_id)].size,
                    },
                )
            } else {
                None
            },
    {
        match self.locate(order_id) {
            Some((k, i, j)) => {
                let lv = self.side_vec(k.side);
                let size = lv[i].orders[j].size;
                Some(RestingOrder { order_id, side: k.side, price: k.price, size })
            },
            None => None,
        }
    }

    /// Total size queued ahead of order `order_id` at its level.
    pub fn queue_pos(&self, order_id: u64) -> (r: Option<u32>)
        requires
            self.wf(),
        ensures
            r == if self.index().contains_key(order_id) {
                let k = self.index()[order_id];
                let q = self.queue(k.side, k.price);
                Some(saturate(size_sum(q.take(order_pos(q, order_id)))))
            } else {
                None
            },
    {
        match self.locate(order_id) {
            Some((k, i, j)) => {
                let lv = self.side_vec(k.side);
                let orders = &lv[i].orders;
                let mut ahead: u32 = 0;
                let mut m: usize = 0;
                while m < j
                    invariant
                        j <= orders@.len(),
                        m <= j,
                        ahead == saturate(size_sum(orders@.take(m as int))),
                    decreases j - m,
                {
                    assert(orders@.take(m as int + 1).drop_last() =~= orders@.take(m as int));
                    ahead = ahead.saturating_add(orders[m].size);
                    m = m + 1;
                }
                Some(ahead)
            },
            None => None,
        }
    }

    /// The first `level_count` ranks of both sides.
    pub fn snapshot(&self, level_count: usize) -> (r: Vec<BidAskPair>)
        ensures
            r@.len() == level_count,
            forall|i: int|
                0 <= i < level_count ==> #[trigger] r@[i] == pair_of(
                    level_at_rank(self.levels(Side::Bid), i),
                    level_at_rank(self.levels(Side::Ask), i),
                ),
    {
        let mut r: Vec<BidAskPair> = Vec::new();
        let mut i: usize = 0;
        while i < level_count
            invariant
                i <= level_count,
                r@.len() == i,
                forall|m: int|
                    0 <= m < i ==> #[trigger] r@[m] == pair_of(
                        level_at_rank(self.levels(Side::Bid), m),
                        level_at_rank(self.levels(Side::Ask), m),
                    ),
            decreases level_count - i,
        {
            let mut pair = BidAskPair::empty();
            if let Some(bid) = self.bid_level(i) {
                pair.bid_px = bid.price;
                pair.bid_sz = bid.size;
                pair.bid_ct = bid.count;
            }
            if let Some(ask) = self.ask_level(i) {
                pair.ask_px = ask.price;
                pair.ask_sz = ask.size;
                pair.ask_ct = ask.count;
            }
            r.push(pair);
            i = i + 1;
        }
        r
    }

    /// Append a new individually tracked order at the back of its level.
    fn add_resting(&mut self, side: Side, price: i64, o: Order)
        requires
            old(self).wf(),
            is_side(side),
            price != UNDEF_PRICE,
            !o.synthetic,
            !old(self).index().contains_key(o.order_id),
        ensures
            final(self).wf(),
            final(self).index() == old(self).index().insert(
                o.order_id,
                OrderKey { side, price },
            ),
            forall|s: Side, p: i64|
                #![trigger final(self).queue(s, p)]
                final(self).queue(s, p) == if s == side && p == price {
                    old(self).queue(s, p).push(o)
                } else {
                    old(self).queue(s, p)
                },
    {
        let id = o.order_id;
        self.orders_by_id.insert(id, OrderKey { side, price });
        if side == Side::Bid {
            insert_order(&mut self.bids, side, price, o);
        } else {
            insert_order(&mut self.offers, side, price, o);
        }
        proof {
            let ob = *old(self);
            let nb = *self;
            assert(forall|s: Side, p: i64| #![trigger nb.queue(s, p)] nb.queue(s, p) == if s == side && p == price {
                    ob.queue(s, p).push(o)
                } else {
                    ob.queue(s, p)
                });
            assert forall|id2: u64| #![trigger nb.index().contains_key(id2)] nb.index().contains_key(id2)
                implies is_side(nb.index()[id2].side) && rests_in(nb.queue(nb.index()[id2].side, nb.index()[id2].price), id2) by {
                let k = nb.index()[id2];
                if id2 == id {
                    let n = ob.queue(side, price).len() as int;
                    assert(nb.queue(side, price)[n] == o);
                } else {
                    assert(ob.index().contains_key(id2));
                    let q0 = ob.queue(k.side, k.price);
                    let m = choose|m: int| 0 <= m < q0.len() && (#[trigger] q0[m]).order_id == id2 && !q0[m].synthetic;
                    assert(nb.queue(k.side, k.price)[m] == q0[m]);
                }
            }
            assert forall|s: Side, p: i64, j: int| #![trigger nb.queue(s, p)[j]]
                0 <= j < nb.queue(s, p).len() && !nb.queue(s, p)[j].synthetic implies
                nb.index().contains_key(nb.queue(s, p)[j].order_id)
                && nb.index()[nb.queue(s, p)[j].order_id] == (OrderKey { side: s, price: p }) by {
                if s == side && p == price && j == ob.queue(s, p).len() {
                } else {
                    assert(nb.queue(s, p)[j] == ob.queue(s, p)[j]);
                }
            }
            assert forall|s: Side, p: i64, a: int, b: int|
                #![trigger nb.queue(s, p)[a], nb.queue(s, p)[b]]
                0 <= a < nb.queue(s, p).len() && 0 <= b < nb.queue(s, p).len()
                    && !nb.queue(s, p)[a].synthetic && !nb.queue(s, p)[b].synthetic
                    && nb.queue(s, p)[a].order_id == nb.queue(s, p)[b].order_id implies a == b by {
                let n = ob.queue(s, p).len();
                if s == side && p == price {
                    if a == n && b < n {
                        assert(nb.queue(s, p)[b] == ob.queue(s, p)[b]);
                    } else if b == n && a < n {
                        assert(nb.queue(s, p)[a] == ob.queue(s, p)[a]);
                    } else if a < n && b < n {
                        assert(nb.queue(s, p)[a] == ob.queue(s, p)[a]);
                        assert(nb.queue(s, p)[b] == ob.queue(s, p)[b]);
                    }
                }
            }
            assert(nb.index().len() == ob.index().len() + 1);
        }
    }

    /// Take order `id`, found by `locate`, off its level and out of the index.
    fn remove_resting(&mut self, id: u64, k: OrderKey, i: usize, j: usize)
        requires
            old(self).wf(),
            old(self).index().contains_key(id),
            k == old(self).index()[id],
            is_side(k.side),
            i < old(self).levels(k.side).len(),
            old(self).levels(k.side)[i as int].price == k.price,
            old(self).queue(k.side, k.price) == old(self).levels(k.side)[i as int].orders@,
            j < old(self).queue(k.side, k.price).len(),
            old(self).queue(k.side, k.price)[j as int].order_id == id,
            !old(self).queue(k.side, k.price)[j as int].synthetic,
        ensures
            final(self).wf(),
            final(self).index() == old(self).index().remove(id),
            forall|s: Side, p: i64|
                #![trigger final(self).queue(s, p)]
                final(self).queue(s, p) == if s == k.side && p == k.price {
                    old(self).queue(s, p).remove(j as int)
                } else {
                    old(self).queue(s, p)
                },
    {
        self.orders_by_id.remove(&id);
        if k.side == Side::Bid {
            remove_order_at(&mut self.bids, k.side, i, j);
        } else {
            remove_order_at(&mut self.offers, k.side, i, j);
        }
        proof {
            let ob = *old(self);
            let nb = *self;
            let q0 = ob.queue(k.side, k.price);
            assert(forall|s: Side, p: i64| #![trigger nb.queue(s, p)] nb.queue(s, p) == if s == k.side && p == k.price {
                    ob.queue(s, p).remove(j as int)
                } else {
                    ob.queue(s, p)
                });
            assert forall|id2: u64| #![trigger nb.index().contains_key(id2)] nb.index().contains_key(id2)
                implies is_side(nb.index()[id2].side) && rests_in(nb.queue(nb.index()[id2].side, nb.index()[id2].price), id2) by {
                let k2 = nb.index()[id2];
                assert(ob.index().contains_key(id2));
                let q2 = ob.queue(k2.side, k2.price);
                let m = choose|m: int| 0 <= m < q2.len() && (#[trigger] q2[m]).order_id == id2 && !q2[m].synthetic;
                if k2 == k {
                    assert(m != j);
                    if m < j {
                        assert(nb.queue(k2.side, k2.price)[m] == q2[m]);
                    } else {
                        assert(nb.queue(k2.side, k2.price)[m - 1] == q2[m]);
                    }
                } else {
                    assert(nb.queue(k2.side, k2.price)[m] == q2[m]);
                }
            }
            assert forall|s: Side, p: i64, m: int| #![trigger nb.queue(s, p)[m]]
                0 <= m < nb.queue(s, p).len() && !nb.queue(s, p)[m].synthetic implies
                nb.index().contains_key(nb.queue(s, p)[m].order_id)
                && nb.index()[nb.queue(s, p)[m].order_id] == (OrderKey { side: s, price: p }) by {
                if s == k.side && p == k.price {
                    let m0 = if m < j { m } else { m + 1 };
                    assert(nb.queue(s, p)[m] == q0[m0]);
                    assert(q0[m0].order_id != id);
                } else {
                    assert(nb.queue(s, p)[m] == ob.queue(s, p)[m]);
                }
            }
            assert forall|s: Side, p: i64, a: int, b: int|
                #![trigger nb.queue(s, p)[a], nb.queue(s, p)[b]]
                0 <= a < nb.queue(s, p).len() && 0 <= b < nb.queue(s, p).len()
                    && !nb.queue(s, p)[a].synthetic && !nb.queue(s, p)[b].synthetic
                    && nb.queue(s, p)[a].order_id == nb.queue(s, p)[b].order_id implies a == b by {
                if s == k.side && p == k.price {
                    let a0 = if a < j { a } else { a + 1 };
                    let b0 = if b < j { b } else { b + 1 };
                    assert(nb.queue(s, p)[a] == q0[a0]);
                    assert(nb.queue(s, p)[b] == q0[b0]);
                } else {
                    assert(nb.queue(s, p)[a] == ob.queue(s, p)[a]);
                    assert(nb.queue(s, p)[b] == ob.queue(s, p)[b]);
                }
            }
            lemma_queue_of_at(ob.levels(k.side), k.side, i as int);
            assert(nb.index().len() + 1 == ob.index().len());
        }
    }

    /// Give order `id`, found by `locate`, a new size in place.
    fn resize_resting(&mut self, id: u64, k: OrderKey, i: usize, j: usize, size: u32)
        requires
            old(self).wf(),
            old(self).index().contains_key(id),
            k == old(self).index()[id],
            is_side(k.side),
            i < old(self).levels(k.side).len(),
            old(self).levels(k.side)[i as int].price == k.price,
            old(self).queue(k.side, k.price) == old(self).levels(k.side)[i as int].orders@,
            j < old(self).queue(k.side, k.price).len(),
            old(self).queue(k.side, k.price)[j as int].order_id == id,
            !old(self).queue(k.side, k.price)[j as int].synthetic,
        ensures
            final(self).wf(),
            final(self).index() == old(self).index(),
            forall|s: Side, p: i64|
                #![trigger final(self).queue(s, p)]
                final(self).queue(s, p) == if s == k.side && p == k.price {
                    old(self).queue(s, p).update(
                        j as int,
                        Order { size, ..old(self).queue(s, p)[j as int] },
                    )
                } else {
                    old(self).queue(s, p)
                },
    {
        if k.side == Side::Bid {
            set_order_size(&mut self.bids, k.side, i, j, size);
        } else {
            set_order_size(&mut self.offers, k.side, i, j, size);
        }
        proof {
            let ob = *old(self);
            let nb = *self;
            let q0 = ob.queue(k.side, k.price);
            assert(forall|s: Side, p: i64| #![trigger nb.queue(s, p)] nb.queue(s, p) == if s == k.side && p == k.price {
                    q0.update(j as int, Order { size, ..q0[j as int] })
                } else {
                    ob.queue(s, p)
                });
            assert forall|id2: u64| #![trigger nb.index().contains_key(id2)] nb.index().contains_key(id2)
                implies is_side(nb.index()[id2].side) && rests_in(nb.queue(nb.index()[id2].side, nb.index()[id2].price), id2) by {
                let k2 = nb.index()[id2];
                let q2 = ob.queue(k2.side, k2.price);
                let m = choose|m: int| 0 <= m < q2.len() && (#[trigger] q2[m]).order_id == id2 && !q2[m].synthetic;
                assert(nb.queue(k2.side, k2.price)[m].order_id == id2);
                assert(!nb.queue(k2.side, k2.price)[m].synthetic);
            }
            assert forall|s: Side, p: i64, m: int| #![trigger nb.queue(s, p)[m]]
                0 <= m < nb.queue(s, p).len() && !nb.queue(s, p)[m].synthetic implies
                nb.index().contains_key(nb.queue(s, p)[m].order_id)
                && nb.index()[nb.queue(s, p)[m].order_id] == (OrderKey { side: s, price: p }) by {
                assert(nb.queue(s, p)[m].order_id == ob.queue(s, p)[m].order_id);
                assert(nb.queue(s, p)[m].synthetic == ob.queue(s, p)[m].synthetic);
            }
            assert forall|s: Side, p: i64, a: int, b: int|
                #![trigger nb.queue(s, p)[a], nb.queue(s, p)[b]]
                0 <= a < nb.queue(s, p).len() && 0 <= b < nb.queue(s, p).len()
                    && !nb.queue(s, p)[a].synthetic && !nb.queue(s, p)[b].synthetic
                    && nb.queue(s, p)[a].order_id == nb.queue(s, p)[b].order_id implies a == b by {
                assert(nb.queue(s, p)[a].order_id == ob.queue(s, p)[a].order_id);
                assert(nb.queue(s, p)[a].synthetic == ob.queue(s, p)[a].synthetic);
                assert(nb.queue(s, p)[b].order_id == ob.queue(s, p)[b].order_id);
                assert(nb.queue(s, p)[b].synthetic == ob.queue(s, p)[b].synthetic);
            }
        }
    }

    /// Empty one side of the book, dropping its orders from the index.
    fn clear_side(&mut self, side: Side)
        requires
            old(self).wf(),
            is_side(side),
        ensures
            final(self).wf(),
            forall|s: Side, p: i64|
                #![trigger final(self).queue(s, p)]
                final(self).queue(s, p) == if s == side {
                    Seq::<Order>::empty()
                } else {
                    old(self).queue(s, p)
                },
    {
        let ghost ob = *old(self);
        let ghost lv = ob.levels(side);
        let n: usize = if side == Side::Bid { self.bids.len() } else { self.offers.len() };
        let mut i: usize = 0;
        while i < n
            invariant
                ob.wf(),
                is_side(side),
                lv == ob.levels(side),
                n == lv.len(),
                i <= n,
                self.bids == ob.bids,
                self.offers == ob.offers,
                forall|id: u64|
                    #![trigger self.orders_by_id@.contains_key(id)]
                    self.orders_by_id@.contains_key(id) <==> (ob.index().contains_key(id)
                        && !removed_before(lv, i as int, 0, id)),
                forall|id: u64|
                    #![trigger self.orders_by_id@.contains_key(id)]
                    self.orders_by_id@.contains_key(id) ==> self.orders_by_id@[id]
                        == ob.index()[id],
                self.orders_by_id@.len() + tracked_in_levels(lv.take(i as int)) == ob.index().len(),
            decreases n - i,
        {
            let ghost q = lv[i as int].orders@;
            let m: usize = if side == Side::Bid { self.bids[i].orders.len() } else { self.offers[i].orders.len() };
            let mut j: usize = 0;
            while j < m
                invariant
                    ob.wf(),
                    is_side(side),
                    lv == ob.levels(side),
                    n == lv.len(),
                    i < n,
                    q == lv[i as int].orders@,
                    m == q.len(),
                    j <= m,
                    self.bids == ob.bids,
                    self.offers == ob.offers,
                    forall|id: u64|
                        #![trigger self.orders_by_id@.contains_key(id)]
                        self.orders_by_id@.contains_key(id) <==> (ob.index().contains_key(id)
                            && !removed_before(lv, i as int, j as int, id)),
                    forall|id: u64|
                        #![trigger self.orders_by_id@.contains_key(id)]
                        self.orders_by_id@.contains_key(id) ==> self.orders_by_id@[id]
                            == ob.index()[id],
                    self.orders_by_id@.len() + tracked_in_levels(lv.take(i as int))
                        + tracked_in_queue(q.take(j as int)) == ob.index().len(),
                decreases m - j,
            {
                let o = if side == Side::Bid { self.bids[i].orders[j] } else { self.offers[i].orders[j] };
                assert(o == q[j as int]);
                let ghost before = self.orders_by_id@;
                proof {
                    lemma_queue_of_at(lv, side, i as int);
                    assert(q.take(j as int + 1).drop_last() =~= q.take(j as int));
                }
                if !o.synthetic {
                    proof {
                        assert(ob.queue(side, lv[i as int].price)[j as int] == o);
                        assert(ob.index().contains_key(o.order_id));
                        assert(!removed_before(lv, i as int, j as int, o.order_id)) by {
                            if removed_before(lv, i as int, j as int, o.order_id) {
                                let (a, b) = choose|a: int, b: int|
                                    0 <= a < lv.len() && 0 <= b < lv[a].orders@.len() && (a < i || (a == i && b < j))
                                        && (#[trigger] lv[a].orders@[b]).order_id == o.order_id && !lv[a].orders@[b].synthetic;
                                lemma_queue_of_at(lv, side, a);
                                assert(ob.queue(side, lv[a].price)[b] == lv[a].orders@[b]);
                                if a < i {
                                    assert(ob.index()[o.order_id] == (OrderKey { side, price: lv[a].price }));
                                    assert(crate::level::better(side, lv[a].price, lv[i as int].price));
                                }
                            }
                        }
                    }
                    self.orders_by_id.remove(&o.order_id);
                }
                proof {
                    assert forall|id: u64| removed_before(lv, i as int, j as int + 1, id) <==> (removed_before(lv, i as int, j as int, id)
                        || (id == o.order_id && !o.synthetic)) by {
                        if id == o.order_id && !o.synthetic {
                            assert(lv[i as int].orders@[j as int] == o);
                        }
                        if removed_before(lv, i as int, j as int + 1, id) {
                            let (a, b) = choose|a: int, b: int|
                                0 <= a < lv.len() && 0 <= b < lv[a].orders@.len() && (a < i || (a == i && b < j + 1))
                                    && (#[trigger] lv[a].orders@[b]).order_id == id && !lv[a].orders@[b].synthetic;
                            if a == i && b == j {
                            } else {
                                assert(removed_before(lv, i as int, j as int, id));
                            }
                        }
                        if removed_before(lv, i as int, j as int, id) {
                            let (a, b) = choose|a: int, b: int|
                                0 <= a < lv.len() && 0 <= b < lv[a].orders@.len() && (a < i || (a == i && b < j))
                                    && (#[trigger] lv[a].orders@[b]).order_id == id && !lv[a].orders@[b].synthetic;
                            assert(removed_before(lv, i as int, j as int + 1, id));
                        }
                    }
                }
                j = j + 1;
            }
            proof {
                assert(q.take(m as int) =~= q);
                assert(lv.take(i as int + 1).drop_last() =~= lv.take(i as int));
                assert forall|id: u64| removed_before(lv, i as int + 1, 0, id) <==> removed_before(lv, i as int, m as int, id) by {
                    if removed_before(lv, i as int + 1, 0, id) {
                        let (a, b) = choose|a: int, b: int|
                            0 <= a < lv.len() && 0 <= b < lv[a].orders@.len() && (a < i + 1 || (a == i + 1 && b < 0))
                                && (#[trigger] lv[a].orders@[b]).order_id == id && !lv[a].orders@[b].synthetic;
                        assert(removed_before(lv, i as int, m as int, id));
                    }
                    if removed_before(lv, i as int, m as int, id) {
                        let (a, b) = choose|a: int, b: int|
                            0 <= a < lv.len() && 0 <= b < lv[a].orders@.len() && (a < i || (a == i && b < m))
                                && (#[trigger] lv[a].orders@[b]).order_id == id && !lv[a].orders@[b].synthetic;
                        assert(removed_before(lv, i as int + 1, 0, id));
                    }
                }
            }
            i = i + 1;
        }
        if side == Side::Bid {
            self.bids.clear();
        } else {
            self.offers.clear();
        }
        proof {
            let nb = *self;
            assert(lv.take(n as int) =~= lv);
            let other = if side == Side::Bid { Side::Ask } else { Side::Bid };
            assert forall|s: Side, p: i64| #![trigger nb.queue(s, p)] nb.queue(s, p) == if s == side {
                    Seq::<Order>::empty()
                } else {
                    ob.queue(s, p)
                } by {
                if s == side {
                    assert(!has_level(nb.levels(s), p));
                }
            }
            // Index entries that survive are exactly those of the other side.
            assert forall|id: u64| #![trigger nb.index().contains_key(id)] nb.index().contains_key(id) <==> (ob.index().contains_key(id)
                && ob.index()[id].side != side) by {
                if ob.index().contains_key(id) && ob.index()[id].side == side {
                    let k = ob.index()[id];
                    let q0 = ob.queue(side, k.price);
                    let b = choose|b: int| 0 <= b < q0.len() && (#[trigger] q0[b]).order_id == id && !q0[b].synthetic;
                    assert(has_level(lv, k.price));
                    let a = choose|a: int| 0 <= a < lv.len() && (#[trigger] lv[a]).price == k.price;
                    lemma_queue_of_at(lv, side, a);
                    assert(lv[a].orders@[b].order_id == id);
                    assert(removed_before(lv, n as int, 0, id));
                }
                if removed_before(lv, n as int, 0, id) && ob.index().contains_key(id) {
                    let (a, b) = choose|a: int, b: int|
                        0 <= a < lv.len() && 0 <= b < lv[a].orders@.len() && (a < n || (a == n && b < 0))
                            && (#[trigger] lv[a].orders@[b]).order_id == id && !lv[a].orders@[b].synthetic;
                    lemma_queue_of_at(lv, side, a);
                    assert(ob.queue(side, lv[a].price)[b] == lv[a].orders@[b]);
                }
            }
            assert forall|id2: u64| #![trigger nb.index().contains_key(id2)] nb.index().contains_key(id2)
                implies is_side(nb.index()[id2].side) && rests_in(nb.queue(nb.index()[id2].side, nb.index()[id2].price), id2) by {
                let k2 = nb.index()[id2];
                assert(rests_in(ob.queue(k2.side, k2.price), id2));
            }
            assert forall|s: Side, p: i64, m: int| #![trigger nb.queue(s, p)[m]]
                0 <= m < nb.queue(s, p).len() && !nb.queue(s, p)[m].synthetic implies
                nb.index().contains_key(nb.queue(s, p)[m].order_id)
                && nb.index()[nb.queue(s, p)[m].order_id] == (OrderKey { side: s, price: p }) by {
                let id = nb.queue(s, p)[m].order_id;
                if s == side {
                    assert(nb.queue(s, p).len() == 0);
                }
                assert(s != side);
                assert(nb.queue(s, p)[m] == ob.queue(s, p)[m]);
                assert(ob.index().contains_key(id));
                assert(ob.index()[id] == (OrderKey { side: s, price: p }));
                assert(nb.index().contains_key(id));
                assert(nb.index()[id] == ob.index()[id]);
            }
            assert forall|s: Side, p: i64, a: int, b: int|
                #![trigger nb.queue(s, p)[a], nb.queue(s, p)[b]]
                0 <= a < nb.queue(s, p).len() && 0 <= b < nb.queue(s, p).len()
                    && !nb.queue(s, p)[a].synthetic && !nb.queue(s, p)[b].synthetic
                    && nb.queue(s, p)[a].order_id == nb.queue(s, p)[b].order_id implies a == b by {
                assert(nb.queue(s, p)[a] == ob.queue(s, p)[a]);
                assert(nb.queue(s, p)[b] == ob.queue(s, p)[b]);
            }
            assert(nb.levels(side) =~= Seq::<Level>::empty());
            assert(nb.levels(other) == ob.levels(other));
            assert(tracked_in_levels(nb.levels(side)) == 0);
        }
    }

    /// Install a synthetic entry on an empty side.
    fn add_synthetic(&mut self, side: Side, price: i64, o: Order)
        requires
            old(self).wf(),
            is_side(side),
            price != UNDEF_PRICE,
            o.synthetic,
        ensures
            final(self).wf(),
            final(self).index() == old(self).index(),
            forall|s: Side, p: i64|
                #![trigger final(self).queue(s, p)]
                final(self).queue(s, p) == if s == side && p == price {
                    old(self).queue(s, p).push(o)
                } else {
                    old(self).queue(s, p)
                },
    {
        if side == Side::Bid {
            insert_order(&mut self.bids, side, price, o);
        } else {
            insert_order(&mut self.offers, side, price, o);
        }
        proof {
            let ob = *old(self);
            let nb = *self;
            assert(forall|s: Side, p: i64| #![trigger nb.queue(s, p)] nb.queue(s, p) == if s == side && p == price {
                    ob.queue(s, p).push(o)
                } else {
                    ob.queue(s, p)
                });
            assert forall|id2: u64| #![trigger nb.index().contains_key(id2)] nb.index().contains_key(id2)
                implies is_side(nb.index()[id2].side) && rests_in(nb.queue(nb.index()[id2].side, nb.index()[id2].price), id2) by {
                let k = nb.index()[id2];
                let q0 = ob.queue(k.side, k.price);
                let m = choose|m: int| 0 <= m < q0.len() && (#[trigger] q0[m]).order_id == id2 && !q0[m].synthetic;
                assert(nb.queue(k.side, k.price)[m] == q0[m]);
            }
            assert forall|s: Side, p: i64, j: int| #![trigger nb.queue(s, p)[j]]
                0 <= j < nb.queue(s, p).len() && !nb.queue(s, p)[j].synthetic implies
                nb.index().contains_key(nb.queue(s, p)[j].order_id)
                && nb.index()[nb.queue(s, p)[j].order_id] == (OrderKey { side: s, price: p }) by {
                if s == side && p == price && j == ob.queue(s, p).len() {
                } else {
                    assert(nb.queue(s, p)[j] == ob.queue(s, p)[j]);
                }
            }
            assert forall|s: Side, p: i64, a: int, b: int|
                #![trigger nb.queue(s, p)[a], nb.queue(s, p)[b]]
                0 <= a < nb.queue(s, p).len() && 0 <= b < nb.queue(s, p).len()
                    && !nb.queue(s, p)[a].synthetic && !nb.queue(s, p)[b].synthetic
                    && nb.queue(s, p)[a].order_id == nb.queue(s, p)[b].order_id implies a == b by {
                let n = ob.queue(s, p).len();
                if s == side && p == price {
                    if a < n && b < n {
                        assert(nb.queue(s, p)[a] == ob.queue(s, p)[a]);
                        assert(nb.queue(s, p)[b] == ob.queue(s, p)[b]);
                    }
                }
            }
        }
    }

    fn add(&mut self, ev: Event) -> (r: Result<(), ErrorKind>)
        requires
            old(self).wf(),
        ensures
            final(self).wf(),
            match r {
                Ok(()) => add_error(*old(self), ev) is None && forall|s: Side, p: i64|
                    #[trigger] final(self).queue(s, p) == added_queue(*old(self), ev, s, p),
                Err(e) => add_error(*old(self), ev) == Some(e) && *final(self) == *old(self),
            },
    {
        if !(ev.side == Side::Bid || ev.side == Side::Ask) {
            return Err(ErrorKind::InvalidInput);
        }
        if ev.is_top_of_book {
            self.clear_side(ev.side);
            if ev.price != UNDEF_PRICE {
                let o = Order { order_id: ev.order_id, size: ev.size, synthetic: true };
                self.add_synthetic(ev.side, ev.price, o);
                proof {
                    assert forall|s: Side, p: i64| #[trigger] self.queue(s, p) == added_queue(*old(self), ev, s, p) by {
                        if s == ev.side && p == ev.price {
                            assert(self.queue(s, p) =~= seq![o]);
                        }
                    }
                }
            }
            return Ok(());
        }
        if ev.price == UNDEF_PRICE {
            return Err(ErrorKind::InvalidInput);
        }
        if self.orders_by_id.contains_key(&ev.order_id) {
            return Err(ErrorKind::ProtocolViolation);
        }
        self.add_resting(ev.side, ev.price, Order { order_id: ev.order_id, size: ev.size, synthetic: false });
        Ok(())
    }

    fn cancel(&mut self, ev: Event) -> (r: Result<(), ErrorKind>)
        requires
            old(self).wf(),
        ensures
            final(self).wf(),
            match r {
                Ok(()) => cancel_error(*old(self), ev) is None && forall|s: Side, p: i64|
                    #[trigger] final(self).queue(s, p) == cancelled_queue(*old(self), ev, s, p),
                Err(e) => cancel_error(*old(self), ev) == Some(e) && *final(self) == *old(self),
            },
    {
        let (k, i, j) = match self.locate(ev.order_id) {
            Some(found) => found,
            None => return Err(ErrorKind::LookupMiss),
        };
        let cur = if k.side == Side::Bid { self.bids[i].orders[j].size } else { self.offers[i].orders[j].size };
        if ev.size > cur {
            return Err(ErrorKind::ProtocolViolation);
        }
        if ev.size == cur {
            self.remove_resting(ev.order_id, k, i, j);
        } else {
            self.resize_resting(ev.order_id, k, i, j, cur - ev.size);
        }
        Ok(())
    }

    fn modify(&mut self, ev: Event) -> (r: Result<(), ErrorKind>)
        requires
            old(self).wf(),
        ensures
            final(self).wf(),
            match r {
                Ok(()) => modify_error(*old(self), ev) is None && forall|s: Side, p: i64|
                    #[trigger] final(self).queue(s, p) == modified_queue(*old(self), ev, s, p),
                Err(e) => modify_error(*old(self), ev) == Some(e) && *final(self) == *old(self),
            },
    {
        let (k, i, j) = match self.locate(ev.order_id) {
            Some(found) => found,
            None => return self.add(ev),
        };
        if !(ev.side == Side::Bid || ev.side == Side::Ask) || ev.price == UNDEF_PRICE {
            return Err(ErrorKind::InvalidInput);
        }
        let cur = if k.side == Side::Bid { self.bids[i].orders[j].size } else { self.offers[i].orders[j].size };
        if k.side == ev.side && k.price == ev.price && ev.size <= cur {
            self.resize_resting(ev.order_id, k, i, j, ev.size);
        } else {
            self.remove_resting(ev.order_id, k, i, j);
            self.add_resting(ev.side, ev.price, Order { order_id: ev.order_id, size: ev.size, synthetic: false });
        }
        Ok(())
    }

    fn clear(&mut self)
        requires
            old(self).wf(),
        ensures
            final(self).wf(),
            forall|s: Side, p: i64| #[trigger] final(self).queue(s, p) == Seq::<Order>::empty(),
    {
        self.orders_by_id.clear();
        self.offers.clear();
        self.bids.clear();
        proof {
            assert forall|s: Side, p: i64| #[trigger] self.queue(s, p) == Seq::<Order>::empty() by {
                assert(!has_level(self.levels(s), p));
            }
            assert(self.levels(Side::Bid) =~= Seq::<Level>::empty());
            assert(self.levels(Side::Ask) =~= Seq::<Level>::empty());
            assert(self.index().dom() =~= Set::<u64>::empty());
        }
    }

    /// Apply one event. A rejected event leaves the book unchanged.
    pub fn apply(&mut self, ev: Event) -> (r: Result<Applied, BookError>)
        requires
            old(self).wf(),
        ensures
            final(self).wf(),
            match r {
                Ok(note) => {
                    &&& apply_error(*old(self), ev) is None
                    &&& applied(*old(self), ev, *final(self))
                    &&& note == note_of(*old(self), ev)
                },
                Err(e) => {
                    &&& apply_error(*old(self), ev) == Some(e.kind)
                    &&& e.order_id == ev.order_id
                    &&& e.instrument_id == ev.instrument_id
                    &&& e.venue_id == ev.venue_id
                    &&& *final(self) == *old(self)
                },
            },
    {
        let note = if ev.action == Action::Modify && !self.orders_by_id.contains_key(&ev.order_id) {
            Applied::ModifyAsAdd
        } else {
            Applied::Normal
        };
        let res = match ev.action {
            Action::Modify => self.modify(ev),
            Action::Trade | Action::Fill | Action::NoAction => Ok(()),
            Action::Cancel => self.cancel(ev),
            Action::Add => self.add(ev),
            Action::Clear => {
                self.clear();
                Ok(())
            },
        };
        match res {
            Ok(()) => Ok(note),
            Err(kind) => Err(
                BookError {
                    kind,
                    order_id: ev.order_id,
                    instrument_id: ev.instrument_id,
                    venue_id: ev.venue_id,
                },
            ),
        }
    }
}

impl Default for Book {
    fn default() -> (r: Book)
        ensures
            is_empty_book(r),
    {
        Book::new()
    }
}

} // verus!

verus! {

/// In every well-formed book (every book that `new` and `apply` produce), the
/// order index holds exactly as many entries as there are individually
/// tracked resting orders over all levels.
pub proof fn lemma_index_size_is_resting_count(b: Book)
    requires
        b.wf(),
    ensures
        b.index().len() == b.resting_count(),
{
}

/// In every well-formed book no level has an empty queue, and a price has a
/// level exactly when its queue is non-empty.
pub proof fn lemma_no_empty_level(b: Book, side: Side)
    requires
        b.wf(),
    ensures
        forall|i: int| 0 <= i < b.levels(side).len() ==> (#[trigger] b.levels(side)[i]).orders@.len() > 0,
        forall|p: i64| has_level(b.levels(side), p) <==> #[trigger] b.queue(side, p).len() > 0,
{
    assert forall|p: i64| has_level(b.levels(side), p) <==> #[trigger] b.queue(side, p).len() > 0 by {
        if has_level(b.levels(side), p) {
            let i = choose|i: int| 0 <= i < b.levels(side).len() && (#[trigger] b.levels(side)[i]).price == p;
            lemma_queue_of_at(b.levels(side), side, i);
        }
    }
}

/// Asking for the best bid and offer twice, with no event in between, gives
/// the same answer: the answer is a function of the book alone.
pub proof fn lemma_bbo_repeatable(
    b: Book,
    first: (Option<PriceLevel>, Option<PriceLevel>),
    second: (Option<PriceLevel>, Option<PriceLevel>),
)
    requires
        first == bbo_of(b),
        second == bbo_of(b),
    ensures
        first == second,
{
}

/// Two well-formed books with the same queues have the same order index.
pub proof fn lemma_index_follows_queues(b1: Book, b2: Book)
    requires
        b1.wf(),
        b2.wf(),
        forall|s: Side, p: i64| #[trigger] b1.queue(s, p) == b2.queue(s, p),
    ensures
        b1.index() == b2.index(),
{
    assert forall|id: u64| b1.index().contains_key(id) implies b2.index().contains_key(id) && b2.index()[id] == b1.index()[id] by {
        let k = b1.index()[id];
        let q = b1.queue(k.side, k.price);
        assert(b1.index().contains_key(id));
        let j = choose|j: int| 0 <= j < q.len() && (#[trigger] q[j]).order_id == id && !q[j].synthetic;
        assert(b2.queue(k.side, k.price)[j] == q[j]);
    }
    assert forall|id: u64| b2.index().contains_key(id) implies b1.index().contains_key(id) by {
        let k = b2.index()[id];
        let q = b2.queue(k.side, k.price);
        assert(b2.index().contains_key(id));
        let j = choose|j: int| 0 <= j < q.len() && (#[trigger] q[j]).order_id == id && !q[j].synthetic;
        assert(b1.queue(k.side, k.price)[j] == q[j]);
    }
    assert(b1.index() =~= b2.index());
}

/// Adding an order of size `S` and then cancelling size `S` of it is accepted
/// and leaves every queue and the order index as they were before the add.
pub proof fn lemma_add_then_cancel_restores(b0: Book, add: Event, b1: Book, cancel: Event, b2: Book)
    requires
        b0.wf(),
        add.action == Action::Add,
        !add.is_top_of_book,
        is_side(add.side),
        add.price != UNDEF_PRICE,
        !b0.index().contains_key(add.order_id),
        applied(b0, add, b1),
        cancel.action == Action::Cancel,
        cancel.order_id == add.order_id,
        cancel.size == add.size,
        applied(b1, cancel, b2),
    ensures
        apply_error(b0, add) is None,
        apply_error(b1, cancel) is None,
        !b2.index().contains_key(add.order_id),
        forall|s: Side, p: i64| #[trigger] b2.queue(s, p) == b0.queue(s, p),
        b2.index() == b0.index(),
{
    let id = add.order_id;
    let q0 = b0.queue(add.side, add.price);
    let o = Order { order_id: id, size: add.size, synthetic: false };
    let n = q0.len() as int;
    assert(b1.queue(add.side, add.price) == q0.push(o));
    assert(b1.queue(add.side, add.price)[n] == o);
    assert(b1.index().contains_key(id));
    assert(b1.index()[id] == (OrderKey { side: add.side, price: add.price }));
    let q1 = b1.queue(add.side, add.price);
    let j = order_pos(q1, id);
    assert(rests_in(q1, id));
    assert(0 <= j < q1.len() && q1[j].order_id == id && !q1[j].synthetic);
    assert(j == n);
    assert(q1.remove(n) =~= q0);
    assert forall|s: Side, p: i64| #[trigger] b2.queue(s, p) == b0.queue(s, p) by {
        assert(b2.queue(s, p) == next_queue(b1, cancel, s, p));
        assert(b1.queue(s, p) == next_queue(b0, add, s, p));
    }
    lemma_index_follows_queues(b2, b0);
}

} // verus!
