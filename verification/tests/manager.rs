use orderbook_core::decimal::Decimal;
use orderbook_core::orderbook::{
    DiffResult, OrderBook, OrderBookDiff, OrderbookManager, OrderbookMessage, OrderbookReply,
    Pair,
};

fn d(i: i64) -> Decimal {
    Decimal::from_int(i).unwrap()
}

fn depth(pairs: &[(i64, i64)]) -> Vec<(Decimal, Decimal)> {
    pairs.iter().map(|&(p, q)| (d(p), d(q))).collect()
}

fn manager() -> OrderbookManager {
    let btc = OrderBook::new(
        Pair::BTCUSDT,
        depth(&[(5, 5), (4, 4)]),
        depth(&[(6, 1), (7, 2)]),
        2,
    );
    let eth = OrderBook::new(Pair::ETHUSDT, depth(&[(3, 3)]), depth(&[(4, 4)]), 2);
    OrderbookManager::new(btc, eth)
}

#[test]
fn read_after_write_sees_the_diff() {
    // A tips query sent after a diff observes the diff's effect:
    // the registry processes messages one at a time, in order.
    let mut m = manager();
    let diff = OrderBookDiff {
        bids: depth(&[(5, 0), (9, 1)]),
        asks: depth(&[(6, 8)]),
        first_update_id: 3,
        last_update_id: 7,
    };
    let r1 = m.handle_message(OrderbookMessage::OrderbookDiff(Pair::BTCUSDT, diff));
    match r1 {
        OrderbookReply::Done(res) => assert_eq!(res, DiffResult::Applied),
        _ => panic!("expected a diff acknowledgement"),
    }
    let r2 = m.handle_message(OrderbookMessage::Tips(Pair::BTCUSDT));
    match r2 {
        OrderbookReply::Tips(t) => {
            let (bid, ask) = t.unwrap();
            assert_eq!(bid, (d(9), d(1)));
            assert_eq!(ask, (d(6), d(8)));
        },
        _ => panic!("expected a tips reply"),
    }
}

#[test]
fn diffs_are_routed_by_pair() {
    let mut m = manager();
    let diff = OrderBookDiff {
        bids: depth(&[(3, 9)]),
        asks: vec![],
        first_update_id: 3,
        last_update_id: 5,
    };
    m.handle_message(OrderbookMessage::OrderbookDiff(Pair::ETHUSDT, diff));
    // The other book is untouched.
    match m.handle_message(OrderbookMessage::Bids(Pair::BTCUSDT)) {
        OrderbookReply::Depth(b) => assert_eq!(b, depth(&[(5, 5), (4, 4)])),
        _ => panic!("expected a depth reply"),
    }
    match m.handle_message(OrderbookMessage::Bids(Pair::ETHUSDT)) {
        OrderbookReply::Depth(b) => assert_eq!(b, depth(&[(3, 9)])),
        _ => panic!("expected a depth reply"),
    }
}

#[test]
fn depth_replies_are_copies_in_ladder_order() {
    let mut m = manager();
    match m.handle_message(OrderbookMessage::Asks(Pair::BTCUSDT)) {
        OrderbookReply::Depth(a) => assert_eq!(a, depth(&[(6, 1), (7, 2)])),
        _ => panic!("expected a depth reply"),
    }
    match m.handle_message(OrderbookMessage::Asks(Pair::ETHUSDT)) {
        OrderbookReply::Depth(a) => assert_eq!(a, depth(&[(4, 4)])),
        _ => panic!("expected a depth reply"),
    }
}

#[test]
fn stale_diff_through_registry_is_ignored() {
    let mut m = manager();
    let diff = OrderBookDiff {
        bids: depth(&[(5, 0)]),
        asks: vec![],
        first_update_id: 1,
        last_update_id: 2,
    };
    match m.handle_message(OrderbookMessage::OrderbookDiff(Pair::BTCUSDT, diff)) {
        OrderbookReply::Done(res) => assert_eq!(res, DiffResult::Stale),
        _ => panic!("expected a diff acknowledgement"),
    }
    match m.handle_message(OrderbookMessage::Bids(Pair::BTCUSDT)) {
        OrderbookReply::Depth(b) => assert_eq!(b, depth(&[(5, 5), (4, 4)])),
        _ => panic!("expected a depth reply"),
    }
}

#[test]
fn message_validity_check() {
    let bad = OrderbookMessage::OrderbookDiff(
        Pair::BTCUSDT,
        OrderBookDiff {
            bids: vec![],
            asks: vec![],
            first_update_id: 5,
            last_update_id: 4,
        },
    );
    assert!(!bad.is_wf());
    assert!(OrderbookMessage::Tips(Pair::BTCUSDT).is_wf());
}
