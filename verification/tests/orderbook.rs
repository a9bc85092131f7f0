use orderbook_core::decimal::{dec_add, dec_eq, dec_lt, Decimal};
use orderbook_core::orderbook::{BookError, DiffResult, OrderBook, OrderBookDiff, Pair};

fn d(i: i64) -> Decimal {
    Decimal::from_int(i).unwrap()
}

fn depth(pairs: &[(i64, i64)]) -> Vec<(Decimal, Decimal)> {
    pairs.iter().map(|&(p, q)| (d(p), d(q))).collect()
}

#[test]
fn test_bulk_values() {
    let bids = (0..2000)
        .rev()
        .step_by(2)
        .map(|i| (d(i), d(1)))
        .collect::<Vec<(Decimal, Decimal)>>();
    let asks = (0..2000)
        .step_by(2)
        .map(|i| (d(i), d(1)))
        .collect::<Vec<(Decimal, Decimal)>>();

    let mut orderbook = OrderBook::new(Pair::BTCUSDT, bids, asks, 2);
    assert_eq!(orderbook.bids().len(), 1000);
    assert_eq!(orderbook.asks().len(), 1000);
    // Should be ordered correctly
    assert_eq!(orderbook.bids().first().unwrap().0, d(1999));
    assert_eq!(orderbook.bids().last().unwrap().0, d(1));

    // Should not update zero diffs that do not exist
    let bids_zero_in_between = (1..2001)
        .rev()
        .step_by(2)
        .map(|i| (d(i), d(0)))
        .collect::<Vec<(Decimal, Decimal)>>();
    let asks_zero_in_between = (1..2001)
        .step_by(2)
        .map(|i| (d(i), d(0)))
        .collect::<Vec<(Decimal, Decimal)>>();
    orderbook.handle_diff(OrderBookDiff {
        bids: bids_zero_in_between,
        asks: asks_zero_in_between,
        first_update_id: 3,
        last_update_id: 4,
    });
    assert_eq!(orderbook.bids().len(), 1000);
    assert_eq!(orderbook.asks().len(), 1000);

    // Should remove half the values
    let bids_zero_half = (0..1000)
        .rev()
        .step_by(2)
        .map(|i| (d(i), d(0)))
        .collect::<Vec<(Decimal, Decimal)>>();
    let asks_zero_half = (0..1000)
        .step_by(2)
        .map(|i| (d(i), d(0)))
        .collect::<Vec<(Decimal, Decimal)>>();
    orderbook.handle_diff(OrderBookDiff {
        bids: bids_zero_half,
        asks: asks_zero_half,
        first_update_id: 5,
        last_update_id: 6,
    });
    assert_eq!(orderbook.bids().len(), 500);
    assert_eq!(orderbook.asks().len(), 500);

    // Should add 1500 values, replacing half the existing ones
    let bids_add = (1501..3001)
        .rev()
        .step_by(1)
        .map(|i| (d(i), d(2)))
        .collect::<Vec<(Decimal, Decimal)>>();
    let asks_add = (1500..3000)
        .step_by(1)
        .map(|i| (d(i), d(2)))
        .collect::<Vec<(Decimal, Decimal)>>();
    orderbook.handle_diff(OrderBookDiff {
        bids: bids_add,
        asks: asks_add,
        first_update_id: 7,
        last_update_id: 8,
    });
    assert_eq!(orderbook.bids().len(), 1750);
    assert_eq!(orderbook.asks().len(), 1750);

    // Amounts should sum 3250
    let mut total_bids_amount = Decimal::zero();
    for (_, amount) in orderbook.bids() {
        total_bids_amount = dec_add(&total_bids_amount, &amount).unwrap();
    }
    assert_eq!(total_bids_amount, d(3250));
    let mut total_asks_amount = Decimal::zero();
    for (_, amount) in orderbook.asks() {
        total_asks_amount = dec_add(&total_asks_amount, &amount).unwrap();
    }
    assert_eq!(total_asks_amount, d(3250));

    // should be correctly ordered
    let bids_prices: Vec<Decimal> = orderbook.bids().iter().map(|(price, _)| *price).collect();
    for w in bids_prices.windows(2) {
        assert!(dec_lt(&w[1], &w[0]));
    }
    let asks_prices: Vec<Decimal> = orderbook.asks().iter().map(|(price, _)| *price).collect();
    for w in asks_prices.windows(2) {
        assert!(dec_lt(&w[0], &w[1]));
    }
}

#[test]
fn correct_diff_handling() {
    let bids = depth(&[(5, 5), (4, 4)]);
    let asks = depth(&[(1, 1), (2, 2)]);

    let mut orderbook = OrderBook::new(Pair::BTCUSDT, bids, asks, 2);

    assert_eq!(orderbook.bids(), depth(&[(5, 5), (4, 4)]));
    assert_eq!(orderbook.asks(), depth(&[(1, 1), (2, 2)]));
    assert_eq!(orderbook.last_update_id(), 2);

    orderbook.handle_diff(OrderBookDiff {
        bids: depth(&[(5, 0), (4, 5)]),
        asks: depth(&[(1, 2), (2, 0)]),
        first_update_id: 3,
        last_update_id: 7,
    });

    assert_eq!(orderbook.bids(), depth(&[(4, 5)]));
    assert_eq!(orderbook.asks(), depth(&[(1, 2)]));
    assert_eq!(orderbook.last_update_id(), 7);

    orderbook.handle_diff(OrderBookDiff {
        bids: depth(&[(6, 6), (5, 6), (3, 4)]),
        asks: depth(&[(1, 3), (2, 3), (3, 4)]),
        first_update_id: 8,
        last_update_id: 10,
    });

    assert_eq!(orderbook.bids(), depth(&[(6, 6), (5, 6), (4, 5), (3, 4)]));
    assert_eq!(orderbook.asks(), depth(&[(1, 3), (2, 3), (3, 4)]));
    assert_eq!(orderbook.last_update_id(), 10);
}

#[test]
#[should_panic(expected = "Diff is too far ahead or too far behind")]
fn panic_not_consecutive_ids() {
    let bids = depth(&[(5, 5), (4, 4)]);
    let asks = depth(&[(1, 1), (2, 2)]);

    let mut orderbook = OrderBook::new(Pair::BTCUSDT, bids, asks, 2);

    assert_eq!(orderbook.bids(), depth(&[(5, 5), (4, 4)]));
    assert_eq!(orderbook.asks(), depth(&[(1, 1), (2, 2)]));
    assert_eq!(orderbook.last_update_id(), 2);

    let result = orderbook.handle_diff(OrderBookDiff {
        bids: depth(&[(5, 0), (4, 5)]),
        asks: depth(&[(1, 2), (2, 0)]),
        first_update_id: 4,
        last_update_id: 7,
    });
    if result == DiffResult::Gap {
        panic!("Diff is too far ahead or too far behind: 4 -> 7 vs 2");
    }
}

#[test]
fn stale_diff_is_dropped_unchanged() {
    let mut book = OrderBook::new(Pair::ETHUSDT, depth(&[(5, 5)]), depth(&[(6, 6)]), 10);
    let r = book.handle_diff(OrderBookDiff {
        bids: depth(&[(5, 0)]),
        asks: depth(&[(7, 1)]),
        first_update_id: 9,
        last_update_id: 10,
    });
    assert_eq!(r, DiffResult::Stale);
    assert_eq!(book.bids(), depth(&[(5, 5)]));
    assert_eq!(book.asks(), depth(&[(6, 6)]));
    assert_eq!(book.last_update_id(), 10);
}

#[test]
fn gap_leaves_book_unchanged() {
    let mut book = OrderBook::new(Pair::BTCUSDT, depth(&[(5, 5)]), depth(&[(6, 6)]), 2);
    let r = book.handle_diff(OrderBookDiff {
        bids: depth(&[(5, 1)]),
        asks: vec![],
        first_update_id: 4,
        last_update_id: 7,
    });
    assert_eq!(r, DiffResult::Gap);
    assert_eq!(book.bids(), depth(&[(5, 5)]));
    assert_eq!(book.asks(), depth(&[(6, 6)]));
    assert_eq!(book.last_update_id(), 2);
}

#[test]
fn next_consecutive_diff_is_applied() {
    // A diff whose range is exactly the next update is in sequence.
    let mut book = OrderBook::new(Pair::BTCUSDT, depth(&[(5, 5)]), depth(&[(6, 6)]), 2);
    let r = book.handle_diff(OrderBookDiff {
        bids: depth(&[(5, 7)]),
        asks: vec![],
        first_update_id: 3,
        last_update_id: 3,
    });
    assert_eq!(r, DiffResult::Applied);
    assert_eq!(book.bids(), depth(&[(5, 7)]));
    assert_eq!(book.last_update_id(), 3);
}

#[test]
fn identity_diff_keeps_content() {
    // Setting every stored price to its current quantity changes nothing.
    let mut book = OrderBook::new(
        Pair::BTCUSDT,
        depth(&[(9, 1), (7, 2), (5, 3)]),
        depth(&[(10, 4), (12, 5)]),
        1,
    );
    let r = book.handle_diff(OrderBookDiff {
        bids: depth(&[(5, 3), (9, 1), (7, 2)]),
        asks: depth(&[(12, 5), (10, 4)]),
        first_update_id: 2,
        last_update_id: 2,
    });
    assert_eq!(r, DiffResult::Applied);
    assert_eq!(book.bids(), depth(&[(9, 1), (7, 2), (5, 3)]));
    assert_eq!(book.asks(), depth(&[(10, 4), (12, 5)]));
    assert_eq!(book.last_update_id(), 2);
}

#[test]
fn removal_of_absent_price_is_noop() {
    let mut book = OrderBook::new(Pair::BTCUSDT, depth(&[(9, 1)]), depth(&[(10, 4)]), 1);
    let r = book.handle_diff(OrderBookDiff {
        bids: depth(&[(8, 0)]),
        asks: depth(&[(11, 0)]),
        first_update_id: 2,
        last_update_id: 2,
    });
    assert_eq!(r, DiffResult::Applied);
    assert_eq!(book.bids(), depth(&[(9, 1)]));
    assert_eq!(book.asks(), depth(&[(10, 4)]));
}

#[test]
fn tips_returns_best_of_both_sides() {
    let book = OrderBook::new(
        Pair::BTCUSDT,
        depth(&[(9, 1), (7, 2)]),
        depth(&[(10, 4), (12, 5)]),
        1,
    );
    let (bid, ask) = book.get_tips().unwrap();
    assert_eq!(bid, (d(9), d(1)));
    assert_eq!(ask, (d(10), d(4)));
}

#[test]
fn tips_on_empty_side_fails() {
    let book = OrderBook::new(Pair::BTCUSDT, depth(&[(9, 1)]), vec![], 1);
    assert_eq!(book.get_tips(), Err(BookError::EmptySide));
    let book = OrderBook::new(Pair::BTCUSDT, vec![], depth(&[(9, 1)]), 1);
    assert_eq!(book.get_tips(), Err(BookError::EmptySide));
}

#[test]
fn diff_validity_check() {
    let good = OrderBookDiff {
        bids: depth(&[(5, 0)]),
        asks: vec![],
        first_update_id: 3,
        last_update_id: 7,
    };
    assert!(good.is_wf());
    let reversed_range = OrderBookDiff {
        bids: vec![],
        asks: vec![],
        first_update_id: 8,
        last_update_id: 7,
    };
    assert!(!reversed_range.is_wf());
    let negative_qty = OrderBookDiff {
        bids: vec![(d(5), Decimal::new(-1, 0).unwrap())],
        asks: vec![],
        first_update_id: 3,
        last_update_id: 7,
    };
    assert!(!negative_qty.is_wf());
}

#[test]
fn tips_track_diffs_across_scales() {
    // 1.50 stored at scale 2 equals 1.5 written at scale 1.
    let p_a = Decimal::new(150, 2).unwrap();
    let p_b = Decimal::new(15, 1).unwrap();
    assert!(dec_eq(&p_a, &p_b));
    let mut book = OrderBook::new(
        Pair::BTCUSDT,
        vec![(p_a, d(2))],
        vec![(d(3), d(1))],
        1,
    );
    // A replacement addressed at the other spelling hits the same level.
    let r = book.handle_diff(OrderBookDiff {
        bids: vec![(p_b, d(9))],
        asks: vec![],
        first_update_id: 2,
        last_update_id: 2,
    });
    assert_eq!(r, DiffResult::Applied);
    let bids = book.bids();
    assert_eq!(bids.len(), 1);
    assert_eq!(bids[0], (p_b, d(9)));
}
