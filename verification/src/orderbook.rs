//! The order book: pair identity, the two ladders, and the sequencing
//! gate that accepts or rejects incoming diffs; and the registry step
//! function that a single-owner actor task runs over all books.
//!
//! Sequencing, for current id `L` and a diff carrying `F <= U`:
//! a diff with `U <= L` is stale and dropped with the book unchanged;
//! a diff with `U > L` and `F <= L + 1` is applied and sets `L := U`;
//! a diff with `U > L` and `F > L + 1` reveals a gap and the book is
//! left unchanged for the caller to resynchronise.

use vstd::prelude::*;
use crate::decimal::{dval, Decimal};
use crate::ladder::{
    apply_level, changes_are_wf, changes_wf, depth_wf, level_of, lemma_identity_changes_noop,
    lemma_levels_determine_depth, Ladder, Side,
};

verus! {

/// The closed set of tracked trading pairs.
#[derive(Clone, Copy, Debug, PartialEq, Eq, Structural)]
pub enum Pair {
    BTCUSDT,
    ETHUSDT,
}

/// An incremental update from the upstream feed: a range of sequence
/// numbers and the price-level changes of both sides, in feed order.
#[derive(Debug)]
pub struct OrderBookDiff {
    pub bids: Vec<(Decimal, Decimal)>,
    pub asks: Vec<(Decimal, Decimal)>,
    pub first_update_id: i64,
    pub last_update_id: i64,
}

impl OrderBookDiff {
    /// A valid diff: ordered non-negative update ids and well-formed
    /// change lists.
    pub open spec fn wf(self) -> bool {
        0 <= self.first_update_id <= self.last_update_id && changes_wf(self.bids@) && changes_wf(
            self.asks@,
        )
    }

    /// Checks validity; unverified callers test this before handing the
    /// diff to the book.
    pub fn is_wf(&self) -> (r: bool)
        ensures
            r == self.wf(),
    {
        0 <= self.first_update_id && self.first_update_id <= self.last_update_id
            && changes_are_wf(&self.bids) && changes_are_wf(&self.asks)
    }
}

/// The outcome of offering a diff to a book.
#[derive(Clone, Copy, Debug, PartialEq, Eq, Structural)]
pub enum DiffResult {
    /// The diff was in sequence and has been applied.
    Applied,
    /// The diff only covers already-applied updates; it was dropped.
    Stale,
    /// The diff starts beyond the next expected update: the local view
    /// has fallen behind and must be resynchronised from a snapshot.
    Gap,
}

/// Errors a query can return.
#[derive(Clone, Copy, Debug, PartialEq, Eq, Structural)]
pub enum BookError {
    /// A side needed by the query holds no entries.
    EmptySide,
}

/// Rule 1: the diff carries nothing newer than the book.
pub open spec fn diff_stale(l: i64, diff: OrderBookDiff) -> bool {
    diff.last_update_id <= l
}

/// Rule 2: the diff is the valid next step.
pub open spec fn diff_in_sequence(l: i64, diff: OrderBookDiff) -> bool {
    diff.last_update_id > l && diff.first_update_id <= l + 1
}

/// Rule 3: the diff starts beyond the next expected update.
pub open spec fn diff_gap(l: i64, diff: OrderBookDiff) -> bool {
    diff.last_update_id > l && diff.first_update_id > l + 1
}

/// One mirrored order book.
#[derive(Debug)]
pub struct OrderBook {
    pub symbol: Pair,
    pub bids: Ladder,
    pub asks: Ladder,
    pub last_update_id: i64,
}

/// What `handle_diff` does: relates the book before, the diff, the book
/// after and the reported outcome.
pub open spec fn diff_transition(
    b0: OrderBook,
    diff: OrderBookDiff,
    b1: OrderBook,
    r: DiffResult,
) -> bool {
    &&& b1.wf()
    &&& b1.symbol == b0.symbol
    &&& b1.last_update_id >= b0.last_update_id
    &&& (r == DiffResult::Stale <==> diff_stale(b0.last_update_id, diff))
    &&& (r == DiffResult::Applied <==> diff_in_sequence(b0.last_update_id, diff))
    &&& (r == DiffResult::Gap <==> diff_gap(b0.last_update_id, diff))
    &&& ((r == DiffResult::Stale || r == DiffResult::Gap) ==> b1 == b0)
    &&& (r == DiffResult::Applied ==> {
        &&& b1.last_update_id == diff.last_update_id
        &&& (forall|v: int| #[trigger]
            level_of(b1.bids.entries@, v) == apply_level(
                diff.bids@,
                v,
                level_of(b0.bids.entries@, v),
            ))
        &&& (forall|v: int| #[trigger]
            level_of(b1.asks.entries@, v) == apply_level(
                diff.asks@,
                v,
                level_of(b0.asks.entries@, v),
            ))
    })
}

/// What `get_tips` returns for a book: the front of both ladders, or
/// `EmptySide` exactly when one of them is empty.
pub open spec fn tips_result(
    b: OrderBook,
    t: Result<((Decimal, Decimal), (Decimal, Decimal)), BookError>,
) -> bool {
    match t {
        Ok(tp) => b.bids.entries@.len() > 0 && b.asks.entries@.len() > 0 && tp.0
            == b.bids.entries@[0] && tp.1 == b.asks.entries@[0],
        Err(e) => e == BookError::EmptySide && (b.bids.entries@.len() == 0
            || b.asks.entries@.len() == 0),
    }
}

impl OrderBook {
    /// Well-formed: a bid ladder and an ask ladder, each well formed for
    /// its side, and a non-negative sequence number.
    pub open spec fn wf(self) -> bool {
        &&& self.bids.side == Side::Bid
        &&& self.asks.side == Side::Ask
        &&& self.bids.wf()
        &&& self.asks.wf()
        &&& self.last_update_id >= 0
    }

    /// Builds a book from a snapshot: sorted depth for both sides and
    /// the snapshot's sequence number.
    pub fn new(
        symbol: Pair,
        bids: Vec<(Decimal, Decimal)>,
        asks: Vec<(Decimal, Decimal)>,
        last_update_id: i64,
    ) -> (r: OrderBook)
        requires
            depth_wf(Side::Bid, bids@),
            depth_wf(Side::Ask, asks@),
            last_update_id >= 0,
        ensures
            r.wf(),
            r.symbol == symbol,
            r.bids.entries@ == bids@,
            r.asks.entries@ == asks@,
            r.last_update_id == last_update_id,
    {
        OrderBook {
            symbol,
            bids: Ladder { side: Side::Bid, entries: bids },
            asks: Ladder { side: Side::Ask, entries: asks },
            last_update_id,
        }
    }

    /// The best bid and best ask with their quantities.
    pub fn get_tips(&self) -> (r: Result<((Decimal, Decimal), (Decimal, Decimal)), BookError>)
        ensures
            tips_result(*self, r),
    {
        let bid = match self.bids.best() {
            Some(e) => e,
            None => {
                return Err(BookError::EmptySide);
            },
        };
        let ask = match self.asks.best() {
            Some(e) => e,
            None => {
                return Err(BookError::EmptySide);
            },
        };
        Ok((bid, ask))
    }

    /// Offers a diff to the book under the sequencing rules. Stale diffs
    /// and gaps leave the book untouched; an in-sequence diff applies
    /// both change lists in order and advances the sequence number,
    /// which never decreases.
    pub fn handle_diff(&mut self, diff: OrderBookDiff) -> (r: DiffResult)
        requires
            old(self).wf(),
            diff.wf(),
        ensures
            diff_transition(*old(self), diff, *final(self), r),
    {
        if diff.last_update_id <= self.last_update_id {
            return DiffResult::Stale;
        }
        if diff.first_update_id - 1 > self.last_update_id {
            return DiffResult::Gap;
        }
        self.bids.apply_changes(&diff.bids);
        self.asks.apply_changes(&diff.asks);
        self.last_update_id = diff.last_update_id;
        DiffResult::Applied
    }

    /// A copy of the bid depth, best first.
    pub fn bids(&self) -> (r: Vec<(Decimal, Decimal)>)
        ensures
            r@ == self.bids.entries@,
    {
        self.bids.snapshot()
    }

    /// A copy of the ask depth, best first.
    pub fn asks(&self) -> (r: Vec<(Decimal, Decimal)>)
        ensures
            r@ == self.asks.entries@,
    {
        self.asks.snapshot()
    }

    /// The most recently applied upstream sequence number.
    pub fn last_update_id(&self) -> (r: i64)
        ensures
            r == self.last_update_id,
    {
        self.last_update_id
    }
}

/// An in-sequence diff that sets every price it touches to the entry the
/// book already holds leaves the content of both ladders unchanged.
pub proof fn lemma_identity_diff_noop(
    b0: OrderBook,
    diff: OrderBookDiff,
    b1: OrderBook,
    r: DiffResult,
)
    requires
        b0.wf(),
        diff.wf(),
        diff_transition(b0, diff, b1, r),
        r == DiffResult::Applied,
        forall|k: int|
            0 <= k < diff.bids@.len() ==> level_of(
                b0.bids.entries@,
                dval((#[trigger] diff.bids@[k]).0),
            ) == Some(diff.bids@[k]),
        forall|k: int|
            0 <= k < diff.asks@.len() ==> level_of(
                b0.asks.entries@,
                dval((#[trigger] diff.asks@[k]).0),
            ) == Some(diff.asks@[k]),
    ensures
        b1.bids.entries@ == b0.bids.entries@,
        b1.asks.entries@ == b0.asks.entries@,
{
    assert forall|v: int| #[trigger] level_of(b1.bids.entries@, v) == level_of(
        b0.bids.entries@,
        v,
    ) by {
        lemma_identity_changes_noop(Side::Bid, b0.bids.entries@, diff.bids@, v);
    }
    assert forall|v: int| #[trigger] level_of(b1.asks.entries@, v) == level_of(
        b0.asks.entries@,
        v,
    ) by {
        lemma_identity_changes_noop(Side::Ask, b0.asks.entries@, diff.asks@, v);
    }
    lemma_levels_determine_depth(Side::Bid, b1.bids.entries@, b0.bids.entries@);
    lemma_levels_determine_depth(Side::Ask, b1.asks.entries@, b0.asks.entries@);
}

/// An in-sequence diff carrying one removal for a price the book does
/// not hold, and nothing else, leaves the content of both ladders
/// unchanged.
pub proof fn lemma_absent_removal_diff_noop(
    b0: OrderBook,
    diff: OrderBookDiff,
    b1: OrderBook,
    r: DiffResult,
)
    requires
        b0.wf(),
        diff.wf(),
        diff_transition(b0, diff, b1, r),
        r == DiffResult::Applied,
        diff.bids@.len() == 1,
        dval(diff.bids@[0].1) == 0,
        level_of(b0.bids.entries@, dval(diff.bids@[0].0)) is None,
        diff.asks@.len() == 0,
    ensures
        b1.bids.entries@ == b0.bids.entries@,
        b1.asks.entries@ == b0.asks.entries@,
{
    let c = diff.bids@[0];
    assert forall|v: int| #[trigger] level_of(b1.bids.entries@, v) == level_of(
        b0.bids.entries@,
        v,
    ) by {
        reveal_with_fuel(apply_level, 3);
        assert(diff.bids@.drop_first() =~= Seq::<(Decimal, Decimal)>::empty());
        if v == dval(c.0) {
            assert(apply_level(diff.bids@, v, level_of(b0.bids.entries@, v)) is None);
        }
    }
    assert forall|v: int| #[trigger] level_of(b1.asks.entries@, v) == level_of(
        b0.asks.entries@,
        v,
    ) by {
        reveal_with_fuel(apply_level, 2);
    }
    lemma_levels_determine_depth(Side::Bid, b1.bids.entries@, b0.bids.entries@);
    lemma_levels_determine_depth(Side::Ask, b1.asks.entries@, b0.asks.entries@);
}

/// A request for the registry: apply a diff, or read tips or one side's
/// depth of a pair's book.
#[derive(Debug)]
pub enum OrderbookMessage {
    OrderbookDiff(Pair, OrderBookDiff),
    Tips(Pair),
    Bids(Pair),
    Asks(Pair),
}

impl OrderbookMessage {
    pub open spec fn wf(self) -> bool {
        match self {
            OrderbookMessage::OrderbookDiff(_, diff) => diff.wf(),
            _ => true,
        }
    }

    /// Checks validity; unverified callers test this before handing the
    /// message to the registry.
    pub fn is_wf(&self) -> (r: bool)
        ensures
            r == self.wf(),
    {
        match self {
            OrderbookMessage::OrderbookDiff(_, diff) => diff.is_wf(),
            _ => true,
        }
    }
}

/// The registry's answer to one message.
#[derive(Debug)]
pub enum OrderbookReply {
    /// Outcome of a diff application.
    Done(DiffResult),
    /// Answer to a tips query.
    Tips(Result<((Decimal, Decimal), (Decimal, Decimal)), BookError>),
    /// Copy of one side of a book's depth.
    Depth(Vec<(Decimal, Decimal)>),
}

/// The registry: one order book per tracked pair, owned exclusively by
/// the single actor task that processes messages in arrival order.
#[derive(Debug)]
pub struct OrderbookManager {
    pub btc_book: OrderBook,
    pub eth_book: OrderBook,
}

impl OrderbookManager {
    pub open spec fn wf(self) -> bool {
        &&& self.btc_book.wf()
        &&& self.btc_book.symbol == Pair::BTCUSDT
        &&& self.eth_book.wf()
        &&& self.eth_book.symbol == Pair::ETHUSDT
    }

    /// The book the registry holds for `pair`.
    pub open spec fn book_of(self, pair: Pair) -> OrderBook {
        match pair {
            Pair::BTCUSDT => self.btc_book,
            Pair::ETHUSDT => self.eth_book,
        }
    }

    pub fn new(btc_book: OrderBook, eth_book: OrderBook) -> (r: OrderbookManager)
        requires
            btc_book.wf(),
            btc_book.symbol == Pair::BTCUSDT,
            eth_book.wf(),
            eth_book.symbol == Pair::ETHUSDT,
        ensures
            r.wf(),
            r.btc_book == btc_book,
            r.eth_book == eth_book,
    {
        OrderbookManager { btc_book, eth_book }
    }

    /// Processes one message: a diff mutates the addressed book exactly
    /// as `handle_diff` does; a query answers from the current state and
    /// changes nothing. Messages are handled one at a time by the owning
    /// actor, so a query sent after a diff observes its effect.
    pub fn handle_message(&mut self, msg: OrderbookMessage) -> (r: OrderbookReply)
        requires
            old(self).wf(),
            msg.wf(),
        ensures
            final(self).wf(),
            match msg {
                OrderbookMessage::OrderbookDiff(pair, diff) => {
                    &&& match r {
                        OrderbookReply::Done(res) => diff_transition(
                            old(self).book_of(pair),
                            diff,
                            final(self).book_of(pair),
                            res,
                        ),
                        _ => false,
                    }
                    &&& (forall|p: Pair|
                        p != pair ==> #[trigger] final(self).book_of(p) == old(self).book_of(p))
                },
                OrderbookMessage::Tips(pair) => {
                    &&& *final(self) == *old(self)
                    &&& match r {
                        OrderbookReply::Tips(t) => tips_result(old(self).book_of(pair), t),
                        _ => false,
                    }
                },
                OrderbookMessage::Bids(pair) => {
                    &&& *final(self) == *old(self)
                    &&& match r {
                        OrderbookReply::Depth(d) => d@ == old(self).book_of(pair).bids.entries@,
                        _ => false,
                    }
                },
                OrderbookMessage::Asks(pair) => {
                    &&& *final(self) == *old(self)
                    &&& match r {
                        OrderbookReply::Depth(d) => d@ == old(self).book_of(pair).asks.entries@,
                        _ => false,
                    }
                },
            },
    {
        match msg {
            OrderbookMessage::OrderbookDiff(pair, diff) => {
                let res = match pair {
                    Pair::BTCUSDT => self.btc_book.handle_diff(diff),
                    Pair::ETHUSDT => self.eth_book.handle_diff(diff),
                };
                OrderbookReply::Done(res)
            },
            OrderbookMessage::Tips(pair) => {
                let t = match pair {
                    Pair::BTCUSDT => self.btc_book.get_tips(),
                    Pair::ETHUSDT => self.eth_book.get_tips(),
                };
                OrderbookReply::Tips(t)
            },
            OrderbookMessage::Bids(pair) => {
                let d = match pair {
                    Pair::BTCUSDT => self.btc_book.bids(),
                    Pair::ETHUSDT => self.eth_book.bids(),
                };
                OrderbookReply::Depth(d)
            },
            OrderbookMessage::Asks(pair) => {
                let d = match pair {
                    Pair::BTCUSDT => self.btc_book.asks(),
                    Pair::ETHUSDT => self.eth_book.asks(),
                };
                OrderbookReply::Depth(d)
            },
        }
    }
}

} // verus!
