use vstd::prelude::*;

verus! {

/// Price sentinel meaning "no price" (the largest `i64`).
pub const UNDEF_PRICE: i64 = 9223372036854775807;

/// The side of the book an event refers to.
#[derive(Clone, Copy, Debug, PartialEq, Eq, Structural)]
pub enum Side {
    Ask,
    Bid,
    NoSide,
}

/// What an event does to the book.
#[derive(Clone, Copy, Debug, PartialEq, Eq, Structural)]
pub enum Action {
    Add,
    Cancel,
    Modify,
    Clear,
    Trade,
    Fill,
    NoAction,
}

/// One market-by-order record. Prices are fixed-point, scaled by 1e-9.
#[derive(Clone, Copy, Debug, PartialEq, Eq, Structural)]
pub struct Event {
    pub instrument_id: u32,
    pub venue_id: u16,
    pub order_id: u64,
    pub side: Side,
    pub action: Action,
    pub price: i64,
    pub size: u32,
    pub is_top_of_book: bool,
    pub ts_event: u64,
}

/// An entry of a level's queue. A synthetic entry stands for a
/// top-of-book quote and is not counted in the order index.
#[derive(Clone, Copy, Debug, PartialEq, Eq, Structural)]
pub struct Order {
    pub order_id: u64,
    pub size: u32,
    pub synthetic: bool,
}

/// Aggregate of one price level: total size and number of counted orders.
/// Both saturate at `u32::MAX`.
#[derive(Clone, Copy, Debug, PartialEq, Eq, Structural)]
pub struct PriceLevel {
    pub price: i64,
    pub size: u32,
    pub count: u32,
}

/// One rank of a depth snapshot. A missing side holds `UNDEF_PRICE`,
/// size 0 and count 0.
#[derive(Clone, Copy, Debug, PartialEq, Eq, Structural)]
pub struct BidAskPair {
    pub bid_px: i64,
    pub ask_px: i64,
    pub bid_sz: u32,
    pub ask_sz: u32,
    pub bid_ct: u32,
    pub ask_ct: u32,
}

/// A resting order as seen through the order index.
#[derive(Clone, Copy, Debug, PartialEq, Eq, Structural)]
pub struct RestingOrder {
    pub order_id: u64,
    pub side: Side,
    pub price: i64,
    pub size: u32,
}

/// Where a counted order rests.
#[derive(Clone, Copy, Debug, PartialEq, Eq, Structural)]
pub struct OrderKey {
    pub side: Side,
    pub price: i64,
}

#[derive(Clone, Copy, Debug, PartialEq, Eq, Structural)]
pub enum ErrorKind {
    /// A duplicate add of a live order, or a cancel larger than the order.
    ProtocolViolation,
    /// A cancel of an order that is not resting.
    LookupMiss,
    /// An add without a price, or a missing side where one is needed.
    InvalidInput,
}

/// A rejected event; the book is left as it was.
#[derive(Clone, Copy, Debug, PartialEq, Eq, Structural)]
pub struct BookError {
    pub kind: ErrorKind,
    pub order_id: u64,
    pub instrument_id: u32,
    pub venue_id: u16,
}

/// What an accepted event did.
#[derive(Clone, Copy, Debug, PartialEq, Eq, Structural)]
pub enum Applied {
    Normal,
    /// A modify of an order that was not resting, applied as an add.
    ModifyAsAdd,
}

pub open spec fn empty_level_pair() -> BidAskPair {
    BidAskPair { bid_px: UNDEF_PRICE, ask_px: UNDEF_PRICE, bid_sz: 0, ask_sz: 0, bid_ct: 0, ask_ct: 0 }
}

impl BidAskPair {
    /// A pair with both sides empty.
    pub fn empty() -> (r: BidAskPair)
        ensures
            r == empty_level_pair(),
    {
        BidAskPair { bid_px: UNDEF_PRICE, ask_px: UNDEF_PRICE, bid_sz: 0, ask_sz: 0, bid_ct: 0, ask_ct: 0 }
    }
}

} // verus!
