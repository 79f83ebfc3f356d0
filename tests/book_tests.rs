use mbo_orderbook::book::Book;
use mbo_orderbook::types::{
    Action, Applied, BidAskPair, ErrorKind, Event, PriceLevel, RestingOrder, Side, UNDEF_PRICE,
};

const PX: i64 = 1_000_000_000;

fn ev(action: Action, order_id: u64, side: Side, price: i64, size: u32) -> Event {
    Event {
        instrument_id: 7,
        venue_id: 1,
        order_id,
        side,
        action,
        price,
        size,
        is_top_of_book: false,
        ts_event: 0,
    }
}

fn tob(side: Side, price: i64, size: u32) -> Event {
    Event { is_top_of_book: true, ..ev(Action::Add, 0, side, price, size) }
}

fn lvl(price: i64, size: u32, count: u32) -> PriceLevel {
    PriceLevel { price, size, count }
}

#[test]
fn two_bids_same_price() {
    let mut b = Book::new();
    b.apply(ev(Action::Add, 1, Side::Bid, 100 * PX, 10)).unwrap();
    b.apply(ev(Action::Add, 2, Side::Bid, 100 * PX, 5)).unwrap();
    let (bid, ask) = b.bbo();
    assert_eq!(bid, Some(lvl(100 * PX, 15, 2)));
    assert_eq!(ask, None);
    assert_eq!(b.queue_pos(2), Some(10));
    assert_eq!(b.queue_pos(1), Some(0));
}

#[test]
fn modify_smaller_keeps_priority() {
    let mut b = Book::new();
    b.apply(ev(Action::Add, 1, Side::Ask, 101 * PX, 7)).unwrap();
    b.apply(ev(Action::Add, 2, Side::Ask, 101 * PX, 2)).unwrap();
    let r = b.apply(ev(Action::Modify, 1, Side::Ask, 101 * PX, 3)).unwrap();
    assert_eq!(r, Applied::Normal);
    assert_eq!(b.queue_pos(1), Some(0));
    assert_eq!(b.queue_pos(2), Some(3));
    assert_eq!(b.bbo().1, Some(lvl(101 * PX, 5, 2)));
}

#[test]
fn modify_single_order_size() {
    let mut b = Book::new();
    b.apply(ev(Action::Add, 1, Side::Ask, 101 * PX, 7)).unwrap();
    b.apply(ev(Action::Modify, 1, Side::Ask, 101 * PX, 3)).unwrap();
    assert_eq!(b.queue_pos(1), Some(0));
    assert_eq!(b.bbo().1.unwrap().size, 3);
}

#[test]
fn modify_larger_loses_priority() {
    let mut b = Book::new();
    b.apply(ev(Action::Add, 1, Side::Ask, 101 * PX, 3)).unwrap();
    b.apply(ev(Action::Add, 2, Side::Ask, 101 * PX, 4)).unwrap();
    b.apply(ev(Action::Modify, 1, Side::Ask, 101 * PX, 6)).unwrap();
    assert_eq!(b.queue_pos(1), Some(4));
    assert_eq!(b.queue_pos(2), Some(0));
    assert_eq!(b.bbo().1, Some(lvl(101 * PX, 10, 2)));
}

#[test]
fn modify_to_new_price_moves_level() {
    let mut b = Book::new();
    b.apply(ev(Action::Add, 1, Side::Bid, 99 * PX, 3)).unwrap();
    b.apply(ev(Action::Add, 2, Side::Bid, 100 * PX, 4)).unwrap();
    b.apply(ev(Action::Modify, 1, Side::Bid, 101 * PX, 3)).unwrap();
    assert_eq!(b.bid_level(0), Some(lvl(101 * PX, 3, 1)));
    assert_eq!(b.bid_level(1), Some(lvl(100 * PX, 4, 1)));
    assert_eq!(b.bid_level(2), None);
    assert_eq!(b.bid_level_by_px(99 * PX), None);
    assert_eq!(
        b.order(1),
        Some(RestingOrder { order_id: 1, side: Side::Bid, price: 101 * PX, size: 3 })
    );
}

#[test]
fn modify_unknown_order_adds_it() {
    let mut b = Book::new();
    let r = b.apply(ev(Action::Modify, 9, Side::Bid, 50 * PX, 4)).unwrap();
    assert_eq!(r, Applied::ModifyAsAdd);
    assert_eq!(b.bid_level(0), Some(lvl(50 * PX, 4, 1)));
    assert_eq!(b.order_count(), 1);
}

#[test]
fn clear_empties_book() {
    let mut b = Book::new();
    b.apply(ev(Action::Add, 1, Side::Bid, 100 * PX, 10)).unwrap();
    b.apply(ev(Action::Add, 2, Side::Ask, 101 * PX, 5)).unwrap();
    b.apply(ev(Action::Clear, 0, Side::NoSide, UNDEF_PRICE, 0)).unwrap();
    assert_eq!(b.bbo(), (None, None));
    assert_eq!(b.order_count(), 0);
    assert_eq!(b.order(1), None);
}

#[test]
fn add_then_cancel_restores_book() {
    let mut b = Book::new();
    b.apply(ev(Action::Add, 1, Side::Bid, 100 * PX, 10)).unwrap();
    let before = b.snapshot(3);
    b.apply(ev(Action::Add, 2, Side::Bid, 99 * PX, 8)).unwrap();
    b.apply(ev(Action::Cancel, 2, Side::Bid, 99 * PX, 8)).unwrap();
    assert_eq!(b.snapshot(3), before);
    assert_eq!(b.order(2), None);
    assert_eq!(b.bid_level_by_px(99 * PX), None);
    assert_eq!(b.order_count(), 1);
}

#[test]
fn partial_cancel_shrinks_order() {
    let mut b = Book::new();
    b.apply(ev(Action::Add, 1, Side::Ask, 101 * PX, 10)).unwrap();
    b.apply(ev(Action::Cancel, 1, Side::Ask, 101 * PX, 4)).unwrap();
    assert_eq!(b.order(1).unwrap().size, 6);
    assert_eq!(b.ask_level_by_px(101 * PX), Some(lvl(101 * PX, 6, 1)));
}

#[test]
fn cancel_unknown_is_lookup_miss() {
    let mut b = Book::new();
    b.apply(ev(Action::Add, 1, Side::Ask, 101 * PX, 10)).unwrap();
    let e = b.apply(ev(Action::Cancel, 5, Side::Ask, 101 * PX, 1)).unwrap_err();
    assert_eq!(e.kind, ErrorKind::LookupMiss);
    assert_eq!(e.order_id, 5);
    assert_eq!(e.instrument_id, 7);
    assert_eq!(e.venue_id, 1);
}

#[test]
fn cancel_too_large_is_rejected_unchanged() {
    let mut b = Book::new();
    b.apply(ev(Action::Add, 1, Side::Ask, 101 * PX, 10)).unwrap();
    let e = b.apply(ev(Action::Cancel, 1, Side::Ask, 101 * PX, 11)).unwrap_err();
    assert_eq!(e.kind, ErrorKind::ProtocolViolation);
    assert_eq!(b.order(1).unwrap().size, 10);
}

#[test]
fn duplicate_add_is_rejected() {
    let mut b = Book::new();
    b.apply(ev(Action::Add, 1, Side::Bid, 100 * PX, 10)).unwrap();
    let e = b.apply(ev(Action::Add, 1, Side::Bid, 98 * PX, 1)).unwrap_err();
    assert_eq!(e.kind, ErrorKind::ProtocolViolation);
    assert_eq!(b.bid_level(0), Some(lvl(100 * PX, 10, 1)));
    assert_eq!(b.bid_level(1), None);
}

#[test]
fn add_without_price_or_side_is_invalid() {
    let mut b = Book::new();
    let e = b.apply(ev(Action::Add, 1, Side::Bid, UNDEF_PRICE, 10)).unwrap_err();
    assert_eq!(e.kind, ErrorKind::InvalidInput);
    let e = b.apply(ev(Action::Add, 2, Side::NoSide, 100 * PX, 10)).unwrap_err();
    assert_eq!(e.kind, ErrorKind::InvalidInput);
    assert_eq!(b.order_count(), 0);
}

#[test]
fn modify_resting_to_undefined_price_is_invalid() {
    let mut b = Book::new();
    b.apply(ev(Action::Add, 1, Side::Bid, 100 * PX, 10)).unwrap();
    let e = b.apply(ev(Action::Modify, 1, Side::Bid, UNDEF_PRICE, 10)).unwrap_err();
    assert_eq!(e.kind, ErrorKind::InvalidInput);
    assert_eq!(b.order(1).unwrap().price, 100 * PX);
}

#[test]
fn trade_and_fill_change_nothing() {
    let mut b = Book::new();
    b.apply(ev(Action::Add, 1, Side::Bid, 100 * PX, 10)).unwrap();
    b.apply(ev(Action::Trade, 1, Side::Bid, 100 * PX, 3)).unwrap();
    b.apply(ev(Action::Fill, 1, Side::Bid, 100 * PX, 3)).unwrap();
    b.apply(ev(Action::NoAction, 1, Side::Bid, 100 * PX, 3)).unwrap();
    assert_eq!(b.bid_level(0), Some(lvl(100 * PX, 10, 1)));
}

#[test]
fn top_of_book_replaces_side() {
    let mut b = Book::new();
    b.apply(ev(Action::Add, 1, Side::Bid, 100 * PX, 10)).unwrap();
    b.apply(ev(Action::Add, 2, Side::Bid, 99 * PX, 10)).unwrap();
    b.apply(ev(Action::Add, 3, Side::Ask, 101 * PX, 4)).unwrap();
    b.apply(tob(Side::Bid, 98 * PX, 25)).unwrap();
    assert_eq!(b.bid_level(0), Some(lvl(98 * PX, 25, 0)));
    assert_eq!(b.bid_level(1), None);
    assert_eq!(b.order(1), None);
    assert_eq!(b.order_count(), 1);
    assert_eq!(b.ask_level(0), Some(lvl(101 * PX, 4, 1)));
    b.apply(tob(Side::Bid, UNDEF_PRICE, 0)).unwrap();
    assert_eq!(b.bbo().0, None);
}

#[test]
fn levels_are_ranked_best_first() {
    let mut b = Book::new();
    b.apply(ev(Action::Add, 1, Side::Ask, 103 * PX, 1)).unwrap();
    b.apply(ev(Action::Add, 2, Side::Ask, 101 * PX, 2)).unwrap();
    b.apply(ev(Action::Add, 3, Side::Ask, 102 * PX, 3)).unwrap();
    b.apply(ev(Action::Add, 4, Side::Bid, 98 * PX, 4)).unwrap();
    b.apply(ev(Action::Add, 5, Side::Bid, 99 * PX, 5)).unwrap();
    assert_eq!(b.ask_level(0), Some(lvl(101 * PX, 2, 1)));
    assert_eq!(b.ask_level(1), Some(lvl(102 * PX, 3, 1)));
    assert_eq!(b.ask_level(2), Some(lvl(103 * PX, 1, 1)));
    assert_eq!(b.bid_level(0), Some(lvl(99 * PX, 5, 1)));
    assert_eq!(b.bid_level(1), Some(lvl(98 * PX, 4, 1)));
    let snap = b.snapshot(3);
    assert_eq!(snap.len(), 3);
    assert_eq!(
        snap[1],
        BidAskPair { bid_px: 98 * PX, ask_px: 102 * PX, bid_sz: 4, ask_sz: 3, bid_ct: 1, ask_ct: 1 }
    );
    assert_eq!(
        snap[2],
        BidAskPair { bid_px: UNDEF_PRICE, ask_px: 103 * PX, bid_sz: 0, ask_sz: 1, bid_ct: 0, ask_ct: 1 }
    );
}

#[test]
fn bbo_is_repeatable() {
    let mut b = Book::new();
    b.apply(ev(Action::Add, 1, Side::Bid, 100 * PX, 10)).unwrap();
    b.apply(ev(Action::Add, 2, Side::Ask, 101 * PX, 5)).unwrap();
    let first = b.bbo();
    let second = b.bbo();
    assert_eq!(first, second);
}

#[test]
fn order_count_tracks_resting_orders() {
    let mut b = Book::new();
    b.apply(ev(Action::Add, 1, Side::Bid, 100 * PX, 10)).unwrap();
    b.apply(ev(Action::Add, 2, Side::Bid, 100 * PX, 5)).unwrap();
    b.apply(ev(Action::Add, 3, Side::Ask, 101 * PX, 5)).unwrap();
    assert_eq!(b.order_count(), 3);
    b.apply(ev(Action::Cancel, 2, Side::Bid, 100 * PX, 5)).unwrap();
    assert_eq!(b.order_count(), 2);
    assert_eq!(b.bid_level(0), Some(lvl(100 * PX, 10, 1)));
}

#[test]
fn level_size_saturates() {
    let mut b = Book::new();
    b.apply(ev(Action::Add, 1, Side::Bid, 100 * PX, u32::MAX)).unwrap();
    b.apply(ev(Action::Add, 2, Side::Bid, 100 * PX, 5)).unwrap();
    assert_eq!(b.bid_level(0), Some(lvl(100 * PX, u32::MAX, 2)));
    assert_eq!(b.queue_pos(2), Some(u32::MAX));
}
