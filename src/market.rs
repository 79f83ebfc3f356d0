use vstd::prelude::*;
use std::collections::HashMap;
use crate::types::{Applied, BookError, Event, PriceLevel};
use crate::book::{Book, bbo_of, apply_error, applied, note_of, is_empty_book};

verus! {

broadcast use vstd::std_specs::hash::group_hash_axioms;

/// Books of every instrument, one per venue, created on their first event.
pub struct Market {
    books: HashMap<u32, Vec<(u16, Book)>>,
}

/// The book of `venue_id` in `vs`, if there is one.
pub open spec fn book_in(vs: Seq<(u16, Book)>, venue_id: u16) -> Option<Book> {
    if exists|i: int| 0 <= i < vs.len() && (#[trigger] vs[i]).0 == venue_id {
        Some(vs[choose|i: int| 0 <= i < vs.len() && (#[trigger] vs[i]).0 == venue_id].1)
    } else {
        None
    }
}

/// No venue appears twice in `vs`.
pub open spec fn venues_unique(vs: Seq<(u16, Book)>) -> bool {
    forall|i: int, j: int|
        0 <= i < vs.len() && 0 <= j < vs.len() && (#[trigger] vs[i]).0 == (#[trigger] vs[j]).0 ==> i == j
}

proof fn lemma_book_in_at(vs: Seq<(u16, Book)>, i: int)
    requires
        venues_unique(vs),
        0 <= i < vs.len(),
    ensures
        book_in(vs, vs[i].0) == Some(vs[i].1),
{
    let k = choose|k: int| 0 <= k < vs.len() && (#[trigger] vs[k]).0 == vs[i].0;
    assert(vs[k].0 == vs[i].0);
}

/// `u32` sum that saturates at `u32::MAX`.
pub open spec fn sat_add(a: u32, b: u32) -> u32 {
    if a + b > u32::MAX {
        u32::MAX
    } else {
        (a + b) as u32
    }
}

/// Fold one venue's best bid into a running consolidated bid: a higher price
/// replaces it, an equal price adds its size and count, a lower one is ignored.
pub open spec fn merge_bid(agg: Option<PriceLevel>, x: Option<PriceLevel>) -> Option<PriceLevel> {
    match x {
        None => agg,
        Some(b) => match agg {
            None => Some(b),
            Some(a) => if b.price > a.price {
                Some(b)
            } else if b.price == a.price {
                Some(PriceLevel { price: a.price, size: sat_add(a.size, b.size), count: sat_add(a.count, b.count) })
            } else {
                agg
            },
        },
    }
}

/// The same for asks, where a lower price is better.
pub open spec fn merge_ask(agg: Option<PriceLevel>, x: Option<PriceLevel>) -> Option<PriceLevel> {
    match x {
        None => agg,
        Some(b) => match agg {
            None => Some(b),
            Some(a) => if b.price < a.price {
                Some(b)
            } else if b.price == a.price {
                Some(PriceLevel { price: a.price, size: sat_add(a.size, b.size), count: sat_add(a.count, b.count) })
            } else {
                agg
            },
        },
    }
}

/// Consolidated best bid over the venues `vs`, in order.
pub open spec fn agg_bid(vs: Seq<(u16, Book)>) -> Option<PriceLevel>
    decreases vs.len(),
{
    if vs.len() == 0 {
        None
    } else {
        merge_bid(agg_bid(vs.drop_last()), bbo_of(vs.last().1).0)
    }
}

/// Consolidated best ask over the venues `vs`, in order.
pub open spec fn agg_ask(vs: Seq<(u16, Book)>) -> Option<PriceLevel>
    decreases vs.len(),
{
    if vs.len() == 0 {
        None
    } else {
        merge_ask(agg_ask(vs.drop_last()), bbo_of(vs.last().1).1)
    }
}

/// `b0` is the book an event for a key starts from: the key's book, or a
/// fresh empty one where the key has none yet.
pub open spec fn starts_from(prior: Option<Book>, b0: Book) -> bool {
    match prior {
        Some(b) => b0 == b,
        None => is_empty_book(b0),
    }
}

/// What applying `ev` to `b0` gave: the result `r` and the book `after`.
pub open spec fn outcome(b0: Book, ev: Event, r: Result<Applied, BookError>, after: Option<Book>) -> bool {
    match r {
        Ok(note) => {
            &&& apply_error(b0, ev) is None
            &&& note == note_of(b0, ev)
            &&& after is Some
            &&& applied(b0, ev, after.unwrap())
        },
        Err(e) => {
            &&& apply_error(b0, ev) == Some(e.kind)
            &&& e.order_id == ev.order_id
            &&& e.instrument_id == ev.instrument_id
            &&& e.venue_id == ev.venue_id
        },
    }
}

fn saturating_sum(a: u32, b: u32) -> (r: u32)
    ensures
        r == sat_add(a, b),
{
    a.saturating_add(b)
}

impl Market {
    /// The venues of an instrument with their books, in order of creation.
    pub closed spec fn venues(&self, instrument_id: u32) -> Seq<(u16, Book)> {
        if self.books@.contains_key(instrument_id) {
            self.books@[instrument_id]@
        } else {
            Seq::empty()
        }
    }

    /// Some event of the instrument has been accepted.
    pub closed spec fn has_instrument(&self, instrument_id: u32) -> bool {
        self.books@.contains_key(instrument_id)
    }

    /// The book of `venue_id` for `instrument_id`, if there is one.
    pub open spec fn book_of(&self, instrument_id: u32, venue_id: u16) -> Option<Book> {
        book_in(self.venues(instrument_id), venue_id)
    }

    /// Every book is well formed; a venue has at most one book per instrument.
    pub open spec fn wf(&self) -> bool {
        &&& forall|inst: u32, i: int|
            0 <= i < self.venues(inst).len() ==> (#[trigger] self.venues(inst)[i]).1.wf()
        &&& forall|inst: u32| venues_unique(#[trigger] self.venues(inst))
    }

    pub fn new() -> (r: Market)
        ensures
            r.wf(),
            forall|inst: u32| #[trigger] r.venues(inst).len() == 0,
    {
        Market { books: HashMap::new() }
    }

    /// The venues of an instrument with their books.
    pub fn books_by_pub(&self, instrument_id: u32) -> (r: Option<&[(u16, Book)]>)
        ensures
            match r {
                Some(s) => self.has_instrument(instrument_id) && s@ == self.venues(instrument_id),
                None => !self.has_instrument(instrument_id) && self.venues(instrument_id).len() == 0,
            },
    {
        match self.books.get(&instrument_id) {
            Some(v) => Some(v.as_slice()),
            None => None,
        }
    }

    /// Position of `venue_id` in `vs`.
    fn find_venue(vs: &Vec<(u16, Book)>, venue_id: u16) -> (r: Option<usize>)
        ensures
            match r {
                Some(i) => i < vs@.len() && vs@[i as int].0 == venue_id,
                None => forall|i: int| 0 <= i < vs@.len() ==> (#[trigger] vs@[i]).0 != venue_id,
            },
    {
        let mut i: usize = 0;
        while i < vs.len()
            invariant
                i <= vs@.len(),
                forall|k: int| 0 <= k < i ==> (#[trigger] vs@[k]).0 != venue_id,
            decreases vs@.len() - i,
        {
            if vs[i].0 == venue_id {
                return Some(i);
            }
            i = i + 1;
        }
        None
    }

    /// The book of `publisher` for `instrument_id`.
    pub fn book(&self, instrument_id: u32, publisher: u16) -> (r: Option<&Book>)
        requires
            self.wf(),
        ensures
            match r {
                Some(b) => self.book_of(instrument_id, publisher) == Some(*b),
                None => self.book_of(instrument_id, publisher) is None,
            },
    {
        let books = match self.books.get(&instrument_id) {
            Some(v) => v,
            None => return None,
        };
        assert(books@ == self.venues(instrument_id));
        match Self::find_venue(books, publisher) {
            Some(i) => {
                proof {
                    lemma_book_in_at(self.venues(instrument_id), i as int);
                }
                Some(&books[i].1)
            },
            None => None,
        }
    }

    /// Best bid and offer of one venue's book; none where it has no book.
    pub fn bbo(&self, instrument_id: u32, publisher: u16) -> (r: (Option<PriceLevel>, Option<PriceLevel>))
        requires
            self.wf(),
        ensures
            r == match self.book_of(instrument_id, publisher) {
                Some(b) => bbo_of(b),
                None => (None, None),
            },
    {
        match self.book(instrument_id, publisher) {
            Some(b) => b.bbo(),
            None => (None, None),
        }
    }

    /// Best bid and offer consolidated over every venue of an instrument.
    pub fn aggregated_bbo(&self, instrument_id: u32) -> (r: (Option<PriceLevel>, Option<PriceLevel>))
        ensures
            r == (agg_bid(self.venues(instrument_id)), agg_ask(self.venues(instrument_id))),
    {
        let mut agg_bid_v: Option<PriceLevel> = None;
        let mut agg_ask_v: Option<PriceLevel> = None;
        let books = match self.books_by_pub(instrument_id) {
            Some(s) => s,
            None => {
                return (None, None);
            },
        };
        let ghost vs = self.venues(instrument_id);
        let mut i: usize = 0;
        while i < books.len()
            invariant
                books@ == vs,
                i <= vs.len(),
                agg_bid_v == agg_bid(vs.take(i as int)),
                agg_ask_v == agg_ask(vs.take(i as int)),
            decreases vs.len() - i,
        {
            assert(vs.take(i as int + 1).drop_last() =~= vs.take(i as int));
            let (bid, ask) = books[i].1.bbo();
            if let Some(bid) = bid {
                agg_bid_v = match agg_bid_v {
                    None => Some(bid),
                    Some(ab) => if bid.price > ab.price {
                        Some(bid)
                    } else if bid.price == ab.price {
                        Some(PriceLevel { price: ab.price, size: saturating_sum(ab.size, bid.size), count: saturating_sum(ab.count, bid.count) })
                    } else {
                        Some(ab)
                    },
                };
            }
            if let Some(ask) = ask {
                agg_ask_v = match agg_ask_v {
                    None => Some(ask),
                    Some(aa) => if ask.price < aa.price {
                        Some(ask)
                    } else if ask.price == aa.price {
                        Some(PriceLevel { price: aa.price, size: saturating_sum(aa.size, ask.size), count: saturating_sum(aa.count, ask.count) })
                    } else {
                        Some(aa)
                    },
                };
            }
            i = i + 1;
        }
        assert(vs.take(i as int) =~= vs);
        (agg_bid_v, agg_ask_v)
    }

    /// Route an event to the book of its instrument and venue, creating that
    /// book on the first accepted event. A rejected event changes nothing.
    pub fn apply(&mut self, ev: Event) -> (r: Result<Applied, BookError>)
        requires
            old(self).wf(),
        ensures
            final(self).wf(),
            forall|inst: u32, venue: u16|
                !(inst == ev.instrument_id && venue == ev.venue_id) ==> #[trigger] final(self).book_of(
                    inst,
                    venue,
                ) == old(self).book_of(inst, venue),
            r is Err ==> forall|inst: u32|
                #![trigger final(self).venues(inst)]
                final(self).venues(inst) == old(self).venues(inst) && final(self).has_instrument(inst)
                    == old(self).has_instrument(inst),
            exists|b0: Book|
                #![trigger starts_from(old(self).book_of(ev.instrument_id, ev.venue_id), b0)]
                starts_from(old(self).book_of(ev.instrument_id, ev.venue_id), b0) && outcome(
                    b0,
                    ev,
                    r,
                    final(self).book_of(ev.instrument_id, ev.venue_id),
                ),
    {
        let inst = ev.instrument_id;
        let ghost ovs = old(self).venues(inst);
        let taken = self.books.remove(&inst);
        let present = taken.is_some();
        let mut venues: Vec<(u16, Book)> = match taken {
            Some(v) => v,
            None => Vec::new(),
        };
        assert(venues@ == ovs);
        assert(venues_unique(ovs));
        let r = match Self::find_venue(&venues, ev.venue_id) {
            Some(i) => {
                let ghost b0 = venues@[i as int].1;
                assert(b0.wf());
                let r = venues[i].1.apply(ev);
                proof {
                    let nvs = venues@;
                    assert(nvs == ovs.update(i as int, nvs[i as int]));
                    assert(venues_unique(nvs));
                    lemma_book_in_at(ovs, i as int);
                    lemma_book_in_at(nvs, i as int);
                    assert forall|venue: u16| venue != ev.venue_id implies #[trigger] book_in(nvs, venue) == book_in(ovs, venue) by {
                        if exists|k: int| 0 <= k < ovs.len() && (#[trigger] ovs[k]).0 == venue {
                            let k = choose|k: int| 0 <= k < ovs.len() && (#[trigger] ovs[k]).0 == venue;
                            lemma_book_in_at(ovs, k);
                            lemma_book_in_at(nvs, k);
                        } else {
                            assert forall|k: int| 0 <= k < nvs.len() implies (#[trigger] nvs[k]).0 != venue by {
                                assert(nvs[k].0 == ovs[k].0);
                            }
                        }
                    }
                    assert(starts_from(old(self).book_of(inst, ev.venue_id), b0));
                    if r is Err {
                        assert(nvs =~= ovs);
                    }
                }
                self.books.insert(inst, venues);
                r
            },
            None => {
                let mut b = Book::new();
                let ghost b0 = b;
                let r = b.apply(ev);
                let ok = r.is_ok();
                if ok {
                    venues.push((ev.venue_id, b));
                    proof {
                        let nvs = venues@;
                        assert(nvs == ovs.push((ev.venue_id, b)));
                        assert(venues_unique(nvs));
                        lemma_book_in_at(nvs, ovs.len() as int);
                        assert forall|venue: u16| venue != ev.venue_id implies #[trigger] book_in(nvs, venue) == book_in(ovs, venue) by {
                            if exists|k: int| 0 <= k < ovs.len() && (#[trigger] ovs[k]).0 == venue {
                                let k = choose|k: int| 0 <= k < ovs.len() && (#[trigger] ovs[k]).0 == venue;
                                lemma_book_in_at(ovs, k);
                                lemma_book_in_at(nvs, k);
                            } else {
                                assert forall|k: int| 0 <= k < nvs.len() implies (#[trigger] nvs[k]).0 != venue by {
                                    if k < ovs.len() {
                                        assert(nvs[k].0 == ovs[k].0);
                                    }
                                }
                            }
                        }
                    }
                    self.books.insert(inst, venues);
                } else if present {
                    self.books.insert(inst, venues);
                }
                proof {
                    assert(book_in(ovs, ev.venue_id) is None);
                    assert(starts_from(old(self).book_of(inst, ev.venue_id), b0));
                }
                r
            },
        };
        proof {
            assert forall|inst2: u32| #![trigger self.venues(inst2)] inst2 != inst implies self.venues(inst2) == old(self).venues(inst2)
                && self.has_instrument(inst2) == old(self).has_instrument(inst2) by {
                assert(self.books@.contains_key(inst2) == old(self).books@.contains_key(inst2));
            }
        }
        r
    }
}

impl Default for Market {
    fn default() -> (r: Market)
        ensures
            r.wf(),
            forall|inst: u32| #[trigger] r.venues(inst).len() == 0,
    {
        Market::new()
    }
}

} // verus!
