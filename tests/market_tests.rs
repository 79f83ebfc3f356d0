use mbo_orderbook::market::Market;
use mbo_orderbook::types::{Action, Applied, ErrorKind, Event, PriceLevel, Side};

const PX: i64 = 1_000_000_000;

fn add(instrument_id: u32, venue_id: u16, order_id: u64, side: Side, price: i64, size: u32) -> Event {
    Event {
        instrument_id,
        venue_id,
        order_id,
        side,
        action: Action::Add,
        price,
        size,
        is_top_of_book: false,
        ts_event: 0,
    }
}

#[test]
fn equal_bids_across_venues_merge() {
    let mut m = Market::new();
    m.apply(add(5, 1, 1, Side::Bid, 99 * PX + PX / 2, 10)).unwrap();
    m.apply(add(5, 2, 1, Side::Bid, 99 * PX + PX / 2, 20)).unwrap();
    let (bid, ask) = m.aggregated_bbo(5);
    assert_eq!(bid, Some(PriceLevel { price: 99 * PX + PX / 2, size: 30, count: 2 }));
    assert_eq!(ask, None);
}

#[test]
fn better_venue_replaces_aggregate() {
    let mut m = Market::new();
    m.apply(add(5, 1, 1, Side::Bid, 99 * PX, 10)).unwrap();
    m.apply(add(5, 2, 2, Side::Bid, 100 * PX, 3)).unwrap();
    m.apply(add(5, 3, 3, Side::Bid, 98 * PX, 7)).unwrap();
    m.apply(add(5, 1, 4, Side::Ask, 102 * PX, 1)).unwrap();
    m.apply(add(5, 2, 5, Side::Ask, 101 * PX, 2)).unwrap();
    m.apply(add(5, 3, 6, Side::Ask, 101 * PX, 4)).unwrap();
    let (bid, ask) = m.aggregated_bbo(5);
    assert_eq!(bid, Some(PriceLevel { price: 100 * PX, size: 3, count: 1 }));
    assert_eq!(ask, Some(PriceLevel { price: 101 * PX, size: 6, count: 2 }));
    assert_eq!(m.aggregated_bbo(6), (None, None));
}

#[test]
fn market_routes_by_instrument_and_venue() {
    let mut m = Market::new();
    m.apply(add(5, 1, 1, Side::Bid, 99 * PX, 10)).unwrap();
    m.apply(add(6, 1, 1, Side::Bid, 50 * PX, 4)).unwrap();
    m.apply(add(5, 2, 1, Side::Ask, 101 * PX, 2)).unwrap();
    assert_eq!(m.bbo(5, 1), (Some(PriceLevel { price: 99 * PX, size: 10, count: 1 }), None));
    assert_eq!(m.bbo(6, 1).0, Some(PriceLevel { price: 50 * PX, size: 4, count: 1 }));
    assert_eq!(m.bbo(5, 2).1, Some(PriceLevel { price: 101 * PX, size: 2, count: 1 }));
    assert_eq!(m.bbo(5, 3), (None, None));
    assert_eq!(m.books_by_pub(5).unwrap().len(), 2);
    assert!(m.book(6, 1).is_some());
    assert!(m.book(6, 2).is_none());
}

#[test]
fn rejected_first_event_creates_no_book() {
    let mut m = Market::new();
    let e = m.apply(Event { action: Action::Cancel, ..add(5, 1, 9, Side::Bid, 99 * PX, 1) }).unwrap_err();
    assert_eq!(e.kind, ErrorKind::LookupMiss);
    assert_eq!(e.instrument_id, 5);
    assert!(m.books_by_pub(5).is_none());
    assert!(m.book(5, 1).is_none());
}

#[test]
fn market_reports_modify_fallback() {
    let mut m = Market::new();
    let r = m.apply(Event { action: Action::Modify, ..add(5, 1, 9, Side::Ask, 99 * PX, 1) }).unwrap();
    assert_eq!(r, Applied::ModifyAsAdd);
    assert_eq!(m.book(5, 1).unwrap().order_count(), 1);
}
