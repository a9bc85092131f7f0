//! Execution-price queries: the volume-weighted average price of filling
//! a target amount against one side of a book.
//!
//! The walk visits the opposite side's ladder best-first. For each entry
//! (p, q): while the quantity is short of the remaining amount the full
//! entry is consumed (`cost += p * q`, `remaining -= q`); the first entry
//! that covers the remainder contributes `p * remaining` and ends the
//! walk. A ladder exhausted early yields the partial-fill cost. The
//! average is `cost / amount`, truncated at `DIV_SCALE` digits. Every
//! arithmetic step is exact; `None` reports a step that left the
//! representable range.

use vstd::prelude::*;
use crate::decimal::{
    add_spec, dec_add, dec_div, dec_lt, dec_mul, dec_sub, div_spec, dval, lemma_add_val,
    lemma_mul_val, lemma_sub_val, mul_spec, pow10, sub_spec, Decimal,
};
use vstd::arithmetic::mul::lemma_mul_is_distributive_add_other_way;
use crate::ladder::entry_wf;
use crate::orderbook::OrderBook;

verus! {

/// The direction of a requested execution: buys walk the asks, sells
/// walk the bids.
#[derive(Clone, Copy, Debug, PartialEq, Eq, Structural)]
pub enum Operation {
    Buy,
    Sell,
}

/// The exact cost of walking `s` with `remaining` still to fill and
/// `cost` already accumulated.
pub open spec fn vwap_cost_spec(
    s: Seq<(Decimal, Decimal)>,
    remaining: Decimal,
    cost: Decimal,
) -> Option<Decimal>
    decreases s.len(),
{
    if s.len() == 0 {
        Some(cost)
    } else {
        let p = s[0].0;
        let q = s[0].1;
        if dval(q) < dval(remaining) {
            match mul_spec(p, q) {
                Some(step) => match add_spec(cost, step) {
                    Some(cost2) => match sub_spec(remaining, q) {
                        Some(rem2) => vwap_cost_spec(s.drop_first(), rem2, cost2),
                        None => None,
                    },
                    None => None,
                },
                None => None,
            }
        } else {
            match mul_spec(p, remaining) {
                Some(step) => add_spec(cost, step),
                None => None,
            }
        }
    }
}

/// The average execution price over depth `s` for a target `amount`:
/// the walk's cost divided by the amount.
pub open spec fn execution_price_spec(s: Seq<(Decimal, Decimal)>, amount: Decimal) -> Option<
    Decimal,
> {
    match vwap_cost_spec(s, amount, Decimal { mantissa: 0, scale: 0 }) {
        Some(c) => div_spec(c, amount),
        None => None,
    }
}

/// The exact cost of the walk over `s` with `rem` still to fill, read at
/// the doubled fixed-point scale: values are `dval`-by-`dval` products.
pub open spec fn walk_cost(s: Seq<(Decimal, Decimal)>, rem: int) -> int
    decreases s.len(),
{
    if s.len() == 0 {
        0
    } else if dval(s[0].1) < rem {
        dval(s[0].0) * dval(s[0].1) + walk_cost(s.drop_first(), rem - dval(s[0].1))
    } else {
        dval(s[0].0) * rem
    }
}

/// An accepted walk accumulates exactly the sum of price times consumed
/// quantity: `dval(result) * 10^36 == dval(cost) * 10^36 + walk_cost`.
pub proof fn lemma_vwap_cost_exact(s: Seq<(Decimal, Decimal)>, remaining: Decimal, cost: Decimal)
    requires
        forall|i: int| 0 <= i < s.len() ==> entry_wf(#[trigger] s[i]),
        remaining.wf(),
        cost.wf(),
        vwap_cost_spec(s, remaining, cost) is Some,
    ensures
        dval(vwap_cost_spec(s, remaining, cost).unwrap()) * pow10(36) == dval(cost) * pow10(36)
            + walk_cost(s, dval(remaining)),
    decreases s.len(),
{
    let c = vwap_cost_spec(s, remaining, cost).unwrap();
    if s.len() == 0 {
    } else {
        let p = s[0].0;
        let q = s[0].1;
        assert(entry_wf(s[0]));
        if dval(q) < dval(remaining) {
            let step = mul_spec(p, q).unwrap();
            let cost2 = add_spec(cost, step).unwrap();
            let rem2 = sub_spec(remaining, q).unwrap();
            lemma_mul_val(p, q);
            lemma_add_val(cost, step);
            lemma_sub_val(remaining, q);
            assert forall|i: int| 0 <= i < s.drop_first().len() implies entry_wf(
                #[trigger] s.drop_first()[i],
            ) by {
                assert(s.drop_first()[i] == s[i + 1]);
            }
            lemma_vwap_cost_exact(s.drop_first(), rem2, cost2);
            lemma_mul_is_distributive_add_other_way(
                pow10(36),
                dval(cost),
                dval(step),
            );
        } else {
            let step = mul_spec(p, remaining).unwrap();
            lemma_mul_val(p, remaining);
            lemma_add_val(cost, step);
            lemma_mul_is_distributive_add_other_way(
                pow10(36),
                dval(cost),
                dval(step),
            );
        }
    }
}

/// The depth a walk for `operation` traverses: buys consume asks, sells
/// consume bids.
pub open spec fn vwap_depth(b: OrderBook, operation: Operation) -> Seq<(Decimal, Decimal)> {
    match operation {
        Operation::Buy => b.asks.entries@,
        Operation::Sell => b.bids.entries@,
    }
}

fn vwap_cost(depth: &Vec<(Decimal, Decimal)>, amount: &Decimal) -> (r: Option<Decimal>)
    requires
        forall|i: int| 0 <= i < depth@.len() ==> entry_wf(#[trigger] depth@[i]),
        amount.wf(),
        dval(*amount) > 0,
    ensures
        r == vwap_cost_spec(depth@, *amount, (Decimal { mantissa: 0, scale: 0 })),
        match r {
            Some(c) => c.wf() && dval(c) >= 0,
            None => true,
        },
{
    let n = depth.len();
    let mut remaining = *amount;
    let mut cost = Decimal { mantissa: 0, scale: 0 };
    let mut i: usize = 0;
    proof {
        crate::decimal::lemma_dval_sign(cost);
        assert(depth@.skip(0) =~= depth@);
    }
    while i < n
        invariant
            i <= n,
            n == depth@.len(),
            forall|k: int| 0 <= k < depth@.len() ==> entry_wf(#[trigger] depth@[k]),
            remaining.wf(),
            cost.wf(),
            dval(cost) >= 0,
            dval(remaining) > 0,
            vwap_cost_spec(depth@.skip(i as int), remaining, cost) == vwap_cost_spec(
                depth@,
                *amount,
                (Decimal { mantissa: 0, scale: 0 }),
            ),
        decreases n - i,
    {
        let (p, q) = depth[i];
        proof {
            assert(entry_wf(depth@[i as int]));
            assert(depth@.skip(i as int)[0] == depth@[i as int]);
            assert(depth@.skip(i as int).drop_first() =~= depth@.skip(i as int + 1));
        }
        if dec_lt(&q, &remaining) {
            let step = match dec_mul(&p, &q) {
                Some(s) => s,
                None => {
                    return None;
                },
            };
            let cost2 = match dec_add(&cost, &step) {
                Some(c) => c,
                None => {
                    return None;
                },
            };
            let rem2 = match dec_sub(&remaining, &q) {
                Some(rm) => rm,
                None => {
                    return None;
                },
            };
            proof {
                lemma_mul_val(p, q);
                lemma_add_val(cost, step);
                lemma_sub_val(remaining, q);
            }
            cost = cost2;
            remaining = rem2;
        } else {
            let step = match dec_mul(&p, &remaining) {
                Some(s) => s,
                None => {
                    return None;
                },
            };
            let cost2 = match dec_add(&cost, &step) {
                Some(c) => c,
                None => {
                    return None;
                },
            };
            proof {
                lemma_mul_val(p, remaining);
                lemma_add_val(cost, step);
            }
            return Some(cost2);
        }
        i = i + 1;
    }
    proof {
        assert(depth@.skip(n as int) =~= Seq::<(Decimal, Decimal)>::empty());
    }
    Some(cost)
}

/// The volume-weighted average price of filling `amount` against a
/// copied depth, walked front-first; `None` when an exact arithmetic
/// step left the representable range.
pub fn execution_price_over_depth(depth: &Vec<(Decimal, Decimal)>, amount: Decimal) -> (r:
    Option<Decimal>)
    requires
        forall|i: int| 0 <= i < depth@.len() ==> entry_wf(#[trigger] depth@[i]),
        amount.wf(),
        dval(amount) > 0,
    ensures
        r == execution_price_spec(depth@, amount),
{
    match vwap_cost(depth, &amount) {
        Some(c) => dec_div(&c, &amount),
        None => None,
    }
}

impl OrderBook {
    /// The volume-weighted average price of filling `amount` against the
    /// book, walking the opposite side best-first; `None` when an exact
    /// arithmetic step left the representable range.
    pub fn execution_price(&self, operation: Operation, amount: Decimal) -> (r: Option<Decimal>)
        requires
            self.wf(),
            amount.wf(),
            dval(amount) > 0,
        ensures
            r == execution_price_spec(vwap_depth(*self, operation), amount),
    {
        match operation {
            Operation::Buy => execution_price_over_depth(&self.asks.entries, amount),
            Operation::Sell => execution_price_over_depth(&self.bids.entries, amount),
        }
    }
}

} // verus!
