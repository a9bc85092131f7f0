use orderbook_core::decimal::{dec_eq, Decimal};
use orderbook_core::ladder::{depth_is_wf, Ladder, Side};
use orderbook_core::orderbook::{OrderBook, Pair};
use orderbook_core::prices::Operation;

fn d(i: i64) -> Decimal {
    Decimal::from_int(i).unwrap()
}

fn dec(m: i128, s: u32) -> Decimal {
    Decimal::new(m, s).unwrap()
}

fn depth(pairs: &[(i64, i64)]) -> Vec<(Decimal, Decimal)> {
    pairs.iter().map(|&(p, q)| (d(p), d(q))).collect()
}

#[test]
fn vwap_buy_walks_asks() {
    // asks = [(100, 1), (101, 2), (103, 10)], amount = 2:
    // cost = 100*1 + 101*1 = 201, average = 100.5.
    let book = OrderBook::new(
        Pair::BTCUSDT,
        depth(&[(99, 1)]),
        depth(&[(100, 1), (101, 2), (103, 10)]),
        1,
    );
    let avg = book.execution_price(Operation::Buy, d(2)).unwrap();
    assert!(dec_eq(&avg, &dec(1005, 1)));
    assert_eq!(avg, dec(10_050_000_000, 8));
}

#[test]
fn vwap_sell_walks_bids() {
    // bids = [(100, 1), (99, 2)], amount = 3: cost = 100 + 198 = 298.
    let book = OrderBook::new(
        Pair::BTCUSDT,
        depth(&[(100, 1), (99, 2)]),
        depth(&[(101, 1)]),
        1,
    );
    let avg = book.execution_price(Operation::Sell, d(3)).unwrap();
    // 298 / 3 == 99.33333333 truncated.
    assert_eq!(avg, dec(9_933_333_333, 8));
}

#[test]
fn vwap_exact_boundary_consumes_last_entry() {
    // The entry that exactly covers the remainder ends the walk.
    let book = OrderBook::new(Pair::BTCUSDT, depth(&[(9, 1)]), depth(&[(100, 2)]), 1);
    let avg = book.execution_price(Operation::Buy, d(2)).unwrap();
    assert!(dec_eq(&avg, &d(100)));
}

#[test]
fn vwap_partial_fill_dilutes_average() {
    // The ladder holds 1 against a target of 2: cost stops at 100 and
    // the average is diluted to 50.
    let book = OrderBook::new(Pair::BTCUSDT, depth(&[(9, 1)]), depth(&[(100, 1)]), 1);
    let avg = book.execution_price(Operation::Buy, d(2)).unwrap();
    assert!(dec_eq(&avg, &d(50)));
}

#[test]
fn vwap_empty_ladder_gives_zero() {
    let book = OrderBook::new(Pair::BTCUSDT, depth(&[(9, 1)]), vec![], 1);
    let avg = book.execution_price(Operation::Buy, d(2)).unwrap();
    assert!(dec_eq(&avg, &d(0)));
}

#[test]
fn vwap_fractional_quantities() {
    // asks = [(100, 0.5), (102, 10)], amount = 1:
    // cost = 100*0.5 + 102*0.5 = 101.
    let book = OrderBook::new(
        Pair::BTCUSDT,
        depth(&[(9, 1)]),
        vec![(d(100), dec(5, 1)), (d(102), d(10))],
        1,
    );
    let avg = book.execution_price(Operation::Buy, d(1)).unwrap();
    assert!(dec_eq(&avg, &d(101)));
}

#[test]
fn ladder_validation() {
    assert!(depth_is_wf(Side::Bid, &depth(&[(9, 1), (7, 2)])));
    assert!(!depth_is_wf(Side::Bid, &depth(&[(7, 2), (9, 1)])));
    assert!(depth_is_wf(Side::Ask, &depth(&[(7, 2), (9, 1)])));
    // A duplicated price is refused.
    assert!(!depth_is_wf(Side::Ask, &depth(&[(7, 2), (7, 1)])));
    // A zero quantity is never stored.
    assert!(!depth_is_wf(Side::Ask, &depth(&[(7, 0)])));
    assert!(Ladder::from_entries(Side::Ask, depth(&[(7, 2), (9, 1)])).is_some());
    assert!(Ladder::from_entries(Side::Bid, depth(&[(7, 2), (9, 1)])).is_none());
}

#[test]
fn ladder_best_is_front_entry() {
    let l = Ladder::from_entries(Side::Bid, depth(&[(9, 1), (7, 2)])).unwrap();
    assert_eq!(l.best(), Some((d(9), d(1))));
    let e = Ladder::from_entries(Side::Ask, vec![]).unwrap();
    assert_eq!(e.best(), None);
}
