//! One side of an order book: an ordered sequence of (price, quantity)
//! entries, and the change-application operation that keeps it ordered.
//!
//! The content of a ladder is modelled by `level_of`: the entry a ladder
//! holds at a given price value, if any. Applying a list of changes is
//! modelled pointwise per price by `apply_level`. Invariants: prices are
//! strictly ordered by the side's polarity (best first), so no price
//! appears twice, and no entry has quantity zero.

use vstd::prelude::*;
use vstd::pervasive::VecAdditionalExecFns;
use crate::decimal::{dec_eq, dec_lt, dval, Decimal, MANT_MAX, SCALE_MAX};

verus! {

/// The side a ladder belongs to. Bids are ordered by descending price,
/// asks by ascending price.
#[derive(Clone, Copy, Debug, PartialEq, Eq, Structural)]
pub enum Side {
    Bid,
    Ask,
}

/// Whether price value `x` is strictly better than `y` on `side`:
/// larger for bids, smaller for asks.
pub open spec fn price_before(side: Side, x: int, y: int) -> bool {
    match side {
        Side::Bid => x > y,
        Side::Ask => x < y,
    }
}

/// A stored depth entry: non-negative price, positive quantity, both
/// bounded.
pub open spec fn entry_wf(e: (Decimal, Decimal)) -> bool {
    e.0.wf() && e.1.wf() && dval(e.0) >= 0 && dval(e.1) > 0
}

/// A change requested by a diff: non-negative price and quantity
/// (quantity zero requests removal).
pub open spec fn change_wf(c: (Decimal, Decimal)) -> bool {
    c.0.wf() && c.1.wf() && dval(c.0) >= 0 && dval(c.1) >= 0
}

pub open spec fn changes_wf(s: Seq<(Decimal, Decimal)>) -> bool {
    forall|k: int| 0 <= k < s.len() ==> change_wf(#[trigger] s[k])
}

/// Prices strictly ordered best-first for the side.
pub open spec fn depth_sorted(side: Side, s: Seq<(Decimal, Decimal)>) -> bool {
    forall|i: int, j: int| #![trigger s[i], s[j]]
        0 <= i < j < s.len() ==> price_before(side, dval(s[i].0), dval(s[j].0))
}

/// A well-formed depth sequence: sorted, and every entry well formed.
pub open spec fn depth_wf(side: Side, s: Seq<(Decimal, Decimal)>) -> bool {
    depth_sorted(side, s) && (forall|i: int| 0 <= i < s.len() ==> entry_wf(#[trigger] s[i]))
}

/// No price value appears at two distinct positions of a sorted depth.
pub proof fn lemma_sorted_unique(side: Side, s: Seq<(Decimal, Decimal)>, i: int, j: int)
    requires
        depth_sorted(side, s),
        0 <= i < s.len(),
        0 <= j < s.len(),
        i != j,
    ensures
        dval(s[i].0) != dval(s[j].0),
{
    if i < j {
        assert(price_before(side, dval(s[i].0), dval(s[j].0)));
    } else {
        assert(price_before(side, dval(s[j].0), dval(s[i].0)));
    }
}

/// The entry a depth sequence holds at price value `v`, if any.
pub open spec fn level_of(s: Seq<(Decimal, Decimal)>, v: int) -> Option<(Decimal, Decimal)>
    decreases s.len(),
{
    if s.len() == 0 {
        None
    } else if dval(s[0].0) == v {
        Some(s[0])
    } else {
        level_of(s.drop_first(), v)
    }
}

/// What one change (price, qty) does to the entry stored at price value `v`.
pub open spec fn apply_change_level(
    price: Decimal,
    qty: Decimal,
    v: int,
    cur: Option<(Decimal, Decimal)>,
) -> Option<(Decimal, Decimal)> {
    if dval(price) == v {
        if dval(qty) == 0 {
            None
        } else {
            Some((price, qty))
        }
    } else {
        cur
    }
}

/// What a list of changes, applied in order, does to the entry stored at
/// price value `v`.
pub open spec fn apply_level(
    changes: Seq<(Decimal, Decimal)>,
    v: int,
    cur: Option<(Decimal, Decimal)>,
) -> Option<(Decimal, Decimal)>
    decreases changes.len(),
{
    if changes.len() == 0 {
        cur
    } else {
        apply_level(
            changes.drop_first(),
            v,
            apply_change_level(changes[0].0, changes[0].1, v, cur),
        )
    }
}

pub proof fn lemma_level_of_absent(s: Seq<(Decimal, Decimal)>, v: int)
    requires
        forall|i: int| 0 <= i < s.len() ==> dval((#[trigger] s[i]).0) != v,
    ensures
        level_of(s, v) is None,
    decreases s.len(),
{
    if s.len() > 0 {
        assert(dval(s[0].0) != v);
        assert forall|i: int| 0 <= i < s.drop_first().len() implies dval(
            (#[trigger] s.drop_first()[i]).0,
        ) != v by {
            assert(s.drop_first()[i] == s[i + 1]);
        }
        lemma_level_of_absent(s.drop_first(), v);
    }
}

pub proof fn lemma_level_of_found(s: Seq<(Decimal, Decimal)>, k: int, v: int)
    requires
        0 <= k < s.len(),
        dval(s[k].0) == v,
        forall|i: int| 0 <= i < k ==> dval((#[trigger] s[i]).0) != v,
    ensures
        level_of(s, v) == Some(s[k]),
    decreases k,
{
    if k > 0 {
        assert(dval(s[0].0) != v);
        assert forall|i: int| 0 <= i < k - 1 implies dval(
            (#[trigger] s.drop_first()[i]).0,
        ) != v by {
            assert(s.drop_first()[i] == s[i + 1]);
        }
        assert(s.drop_first()[k - 1] == s[k]);
        lemma_level_of_found(s.drop_first(), k - 1, v);
    }
}

/// In a sorted depth, the level at the value of position `k` is exactly
/// the entry at `k`.
pub proof fn lemma_level_unique_found(side: Side, s: Seq<(Decimal, Decimal)>, k: int, v: int)
    requires
        depth_sorted(side, s),
        0 <= k < s.len(),
        dval(s[k].0) == v,
    ensures
        level_of(s, v) == Some(s[k]),
{
    assert forall|i: int| 0 <= i < k implies dval((#[trigger] s[i]).0) != v by {
        lemma_sorted_unique(side, s, i, k);
    }
    lemma_level_of_found(s, k, v);
}

/// A present level comes from some position of the sequence.
pub proof fn lemma_level_some_index(s: Seq<(Decimal, Decimal)>, v: int)
    requires
        level_of(s, v) is Some,
    ensures
        exists|i: int|
            0 <= i < s.len() && s[i] == level_of(s, v).unwrap() && dval(
                (#[trigger] s[i]).0,
            ) == v,
    decreases s.len(),
{
    if s.len() > 0 {
        if dval(s[0].0) == v {
            assert(s[0] == level_of(s, v).unwrap() && dval(s[0].0) == v);
        } else {
            lemma_level_some_index(s.drop_first(), v);
            let i = choose|i: int|
                0 <= i < s.drop_first().len() && s.drop_first()[i] == level_of(
                    s.drop_first(),
                    v,
                ).unwrap() && dval((#[trigger] s.drop_first()[i]).0) == v;
            assert(s[i + 1] == s.drop_first()[i]);
        }
    }
}

proof fn lemma_remove_keeps(side: Side, s: Seq<(Decimal, Decimal)>, i: int, v: int)
    requires
        depth_wf(side, s),
        0 <= i < s.len(),
    ensures
        depth_wf(side, s.remove(i)),
        level_of(s.remove(i), v) == if v == dval(s[i].0) {
            None
        } else {
            level_of(s, v)
        },
{
    let t = s.remove(i);
    assert forall|x: int| 0 <= x < t.len() implies #[trigger] t[x] == s[if x < i {
        x
    } else {
        x + 1
    }] by {}
    assert forall|x: int, y: int| #![trigger t[x], t[y]]
        0 <= x < y < t.len() implies price_before(side, dval(t[x].0), dval(t[y].0)) by {
        let x0 = if x < i { x } else { x + 1 };
        let y0 = if y < i { y } else { y + 1 };
        assert(t[x] == s[x0] && t[y] == s[y0]);
    }
    if v == dval(s[i].0) {
        assert forall|x: int| 0 <= x < t.len() implies dval((#[trigger] t[x]).0) != v by {
            let x0 = if x < i { x } else { x + 1 };
            assert(t[x] == s[x0]);
            lemma_sorted_unique(side, s, x0, i);
        }
        lemma_level_of_absent(t, v);
    } else {
        if level_of(s, v) is Some {
            lemma_level_some_index(s, v);
            let k = choose|k: int|
                0 <= k < s.len() && s[k] == level_of(s, v).unwrap() && dval(
                    (#[trigger] s[k]).0,
                ) == v;
            let k1 = if k < i { k } else { k - 1 };
            assert(t[k1] == s[k]);
            lemma_level_unique_found(side, t, k1, v);
        } else {
            assert forall|x: int| 0 <= x < s.len() implies dval((#[trigger] s[x]).0) != v by {
                if dval(s[x].0) == v {
                    lemma_level_unique_found(side, s, x, v);
                }
            }
            assert forall|x: int| 0 <= x < t.len() implies dval((#[trigger] t[x]).0) != v by {
                let x0 = if x < i { x } else { x + 1 };
                assert(t[x] == s[x0]);
            }
            lemma_level_of_absent(t, v);
        }
    }
}

proof fn lemma_update_keeps(
    side: Side,
    s: Seq<(Decimal, Decimal)>,
    i: int,
    e: (Decimal, Decimal),
    v: int,
)
    requires
        depth_wf(side, s),
        0 <= i < s.len(),
        entry_wf(e),
        dval(e.0) == dval(s[i].0),
    ensures
        depth_wf(side, s.update(i, e)),
        level_of(s.update(i, e), v) == if v == dval(e.0) {
            Some(e)
        } else {
            level_of(s, v)
        },
{
    let t = s.update(i, e);
    assert forall|x: int, y: int| #![trigger t[x], t[y]]
        0 <= x < y < t.len() implies price_before(side, dval(t[x].0), dval(t[y].0)) by {
        assert(s[x] == if x == i { s[i] } else { t[x] });
        assert(s[y] == if y == i { s[i] } else { t[y] });
    }
    if v == dval(e.0) {
        lemma_level_unique_found(side, t, i, v);
    } else {
        if level_of(s, v) is Some {
            lemma_level_some_index(s, v);
            let k = choose|k: int|
                0 <= k < s.len() && s[k] == level_of(s, v).unwrap() && dval(
                    (#[trigger] s[k]).0,
                ) == v;
            assert(k != i);
            assert(t[k] == s[k]);
            lemma_level_unique_found(side, t, k, v);
        } else {
            assert forall|x: int| 0 <= x < s.len() implies dval((#[trigger] s[x]).0) != v by {
                if dval(s[x].0) == v {
                    lemma_level_unique_found(side, s, x, v);
                }
            }
            assert forall|x: int| 0 <= x < t.len() implies dval((#[trigger] t[x]).0) != v by {
                assert(t[x] == if x == i { e } else { s[x] });
            }
            lemma_level_of_absent(t, v);
        }
    }
}

proof fn lemma_insert_keeps(
    side: Side,
    s: Seq<(Decimal, Decimal)>,
    i: int,
    e: (Decimal, Decimal),
    v: int,
)
    requires
        depth_wf(side, s),
        0 <= i <= s.len(),
        entry_wf(e),
        forall|j: int| 0 <= j < s.len() ==> dval((#[trigger] s[j]).0) != dval(e.0),
        forall|j: int| 0 <= j < i ==> price_before(side, dval((#[trigger] s[j]).0), dval(e.0)),
        i < s.len() ==> !price_before(side, dval(s[i].0), dval(e.0)),
    ensures
        depth_wf(side, s.insert(i, e)),
        level_of(s.insert(i, e), v) == if v == dval(e.0) {
            Some(e)
        } else {
            level_of(s, v)
        },
{
    let t = s.insert(i, e);
    assert forall|x: int| 0 <= x < t.len() implies #[trigger] t[x] == (if x < i {
        s[x]
    } else if x == i {
        e
    } else {
        s[x - 1]
    }) by {}
    assert forall|j: int| i <= j < s.len() implies price_before(
        side,
        dval(e.0),
        dval((#[trigger] s[j]).0),
    ) by {
        if i < s.len() {
            assert(dval(s[i].0) != dval(e.0));
        }
    }
    assert forall|x: int, y: int| #![trigger t[x], t[y]]
        0 <= x < y < t.len() implies price_before(side, dval(t[x].0), dval(t[y].0)) by {
        if x < i && y < i {
        } else if x < i && y == i {
        } else if x < i && y > i {
            assert(t[y] == s[y - 1]);
        } else if x == i {
            assert(t[y] == s[y - 1]);
        } else {
            assert(t[x] == s[x - 1] && t[y] == s[y - 1]);
        }
    }
    if v == dval(e.0) {
        lemma_level_unique_found(side, t, i, v);
    } else {
        if level_of(s, v) is Some {
            lemma_level_some_index(s, v);
            let k = choose|k: int|
                0 <= k < s.len() && s[k] == level_of(s, v).unwrap() && dval(
                    (#[trigger] s[k]).0,
                ) == v;
            let k1 = if k < i { k } else { k + 1 };
            assert(t[k1] == s[k]);
            lemma_level_unique_found(side, t, k1, v);
        } else {
            assert forall|x: int| 0 <= x < s.len() implies dval((#[trigger] s[x]).0) != v by {
                if dval(s[x].0) == v {
                    lemma_level_unique_found(side, s, x, v);
                }
            }
            assert forall|x: int| 0 <= x < t.len() implies dval((#[trigger] t[x]).0) != v by {}
            lemma_level_of_absent(t, v);
        }
    }
}

/// Appending one change to a change list composes pointwise.
pub proof fn lemma_apply_level_push(
    changes: Seq<(Decimal, Decimal)>,
    c: (Decimal, Decimal),
    v: int,
    cur: Option<(Decimal, Decimal)>,
)
    ensures
        apply_level(changes.push(c), v, cur) == apply_change_level(
            c.0,
            c.1,
            v,
            apply_level(changes, v, cur),
        ),
    decreases changes.len(),
{
    if changes.len() == 0 {
        assert(changes.push(c)[0] == c);
        assert(changes.push(c).drop_first() =~= changes);
        assert(apply_level(changes.push(c), v, cur) == apply_level(
            changes.push(c).drop_first(),
            v,
            apply_change_level(c.0, c.1, v, cur),
        ));
        assert(apply_level(changes, v, apply_change_level(c.0, c.1, v, cur))
            == apply_change_level(c.0, c.1, v, cur));
    } else {
        assert(changes.push(c)[0] == changes[0]);
        assert(changes.push(c).drop_first() =~= changes.drop_first().push(c));
        lemma_apply_level_push(
            changes.drop_first(),
            c,
            v,
            apply_change_level(changes[0].0, changes[0].1, v, cur),
        );
    }
}

/// A change of quantity zero for a price the depth does not hold leaves
/// every level unchanged.
pub proof fn lemma_remove_absent_noop(
    side: Side,
    s: Seq<(Decimal, Decimal)>,
    p: Decimal,
    q: Decimal,
)
    requires
        depth_wf(side, s),
        dval(q) == 0,
        level_of(s, dval(p)) is None,
    ensures
        forall|v: int| #[trigger]
            apply_change_level(p, q, v, level_of(s, v)) == level_of(s, v),
{
}

/// Changes that set every touched price to the entry the depth already
/// holds leave every level unchanged.
pub proof fn lemma_identity_changes_noop(
    side: Side,
    s: Seq<(Decimal, Decimal)>,
    changes: Seq<(Decimal, Decimal)>,
    v: int,
)
    requires
        depth_wf(side, s),
        forall|k: int|
            0 <= k < changes.len() ==> level_of(s, dval((#[trigger] changes[k]).0)) == Some(
                changes[k],
            ),
    ensures
        apply_level(changes, v, level_of(s, v)) == level_of(s, v),
    decreases changes.len(),
{
    if changes.len() > 0 {
        let c = changes[0];
        assert(level_of(s, dval(c.0)) == Some(c));
        if dval(c.0) == v {
            lemma_level_some_index(s, dval(c.0));
            let i = choose|i: int|
                0 <= i < s.len() && s[i] == level_of(s, dval(c.0)).unwrap() && dval(
                    (#[trigger] s[i]).0,
                ) == dval(c.0);
            assert(entry_wf(s[i]));
        }
        assert forall|k: int| 0 <= k < changes.drop_first().len() implies level_of(
            s,
            dval((#[trigger] changes.drop_first()[k]).0),
        ) == Some(changes.drop_first()[k]) by {
            assert(changes.drop_first()[k] == changes[k + 1]);
        }
        lemma_identity_changes_noop(side, s, changes.drop_first(), v);
        assert(apply_change_level(c.0, c.1, v, level_of(s, v)) == level_of(s, v));
    }
}

/// Two well-formed depth sequences of one side that hold the same entry
/// at every price value are the same sequence.
pub proof fn lemma_levels_determine_depth(
    side: Side,
    s: Seq<(Decimal, Decimal)>,
    t: Seq<(Decimal, Decimal)>,
)
    requires
        depth_wf(side, s),
        depth_wf(side, t),
        forall|v: int| #[trigger] level_of(s, v) == level_of(t, v),
    ensures
        s == t,
    decreases s.len(),
{
    if s.len() == 0 {
        if t.len() > 0 {
            let v0 = dval(t[0].0);
            lemma_level_unique_found(side, t, 0, v0);
            assert(level_of(s, v0) is None);
            assert(false);
        }
        assert(s =~= t);
    } else if t.len() == 0 {
        let v0 = dval(s[0].0);
        lemma_level_unique_found(side, s, 0, v0);
        assert(level_of(t, v0) is None);
        assert(false);
    } else {
        let vs = dval(s[0].0);
        let vt = dval(t[0].0);
        lemma_level_unique_found(side, s, 0, vs);
        lemma_level_unique_found(side, t, 0, vt);
        lemma_level_some_index(t, vs);
        let k = choose|k: int|
            0 <= k < t.len() && t[k] == level_of(t, vs).unwrap() && dval((#[trigger] t[k]).0)
                == vs;
        lemma_level_some_index(s, vt);
        let j = choose|j: int|
            0 <= j < s.len() && s[j] == level_of(s, vt).unwrap() && dval((#[trigger] s[j]).0)
                == vt;
        if k > 0 {
            assert(price_before(side, dval(t[0].0), dval(t[k].0)));
            if j > 0 {
                assert(price_before(side, dval(s[0].0), dval(s[j].0)));
            }
            assert(false);
        }
        assert(t[0] == s[0]);
        let s1 = s.drop_first();
        let t1 = t.drop_first();
        assert forall|x: int| 0 <= x < s1.len() implies #[trigger] s1[x] == s[x + 1] by {}
        assert forall|x: int| 0 <= x < t1.len() implies #[trigger] t1[x] == t[x + 1] by {}
        assert forall|x: int, y: int| #![trigger s1[x], s1[y]]
            0 <= x < y < s1.len() implies price_before(side, dval(s1[x].0), dval(s1[y].0)) by {
            assert(s1[x] == s[x + 1] && s1[y] == s[y + 1]);
        }
        assert forall|x: int, y: int| #![trigger t1[x], t1[y]]
            0 <= x < y < t1.len() implies price_before(side, dval(t1[x].0), dval(t1[y].0)) by {
            assert(t1[x] == t[x + 1] && t1[y] == t[y + 1]);
        }
        assert forall|v: int| #[trigger] level_of(s1, v) == level_of(t1, v) by {
            if v == vs {
                assert forall|x: int| 0 <= x < s1.len() implies dval(
                    (#[trigger] s1[x]).0,
                ) != v by {
                    lemma_sorted_unique(side, s, x + 1, 0);
                }
                assert forall|x: int| 0 <= x < t1.len() implies dval(
                    (#[trigger] t1[x]).0,
                ) != v by {
                    lemma_sorted_unique(side, t, x + 1, 0);
                }
                lemma_level_of_absent(s1, v);
                lemma_level_of_absent(t1, v);
            } else {
                assert(level_of(s, v) == level_of(s1, v));
                assert(level_of(t, v) == level_of(t1, v));
            }
        }
        lemma_levels_determine_depth(side, s1, t1);
        assert forall|x: int| 0 <= x < s.len() implies #[trigger] s[x] == t[x] by {
            if x > 0 {
                assert(s[x] == s1[x - 1] && t[x] == t1[x - 1]);
            }
        }
        assert(s =~= t);
    }
}

/// Whether `a` is a strictly better price than `b` on `side`.
pub fn before(side: Side, a: &Decimal, b: &Decimal) -> (r: bool)
    requires
        a.wf(),
        b.wf(),
    ensures
        r == price_before(side, dval(*a), dval(*b)),
{
    match side {
        Side::Bid => dec_lt(b, a),
        Side::Ask => dec_lt(a, b),
    }
}

/// One side of an order book, owned by it: the side's polarity and the
/// ordered depth entries, best first.
#[derive(Debug)]
pub struct Ladder {
    pub side: Side,
    pub entries: Vec<(Decimal, Decimal)>,
}

fn find_price(entries: &Vec<(Decimal, Decimal)>, p: &Decimal) -> (r: Option<usize>)
    requires
        p.wf(),
        forall|i: int| 0 <= i < entries@.len() ==> entry_wf(#[trigger] entries@[i]),
    ensures
        match r {
            Some(i) => 0 <= i < entries@.len() && dval(entries@[i as int].0) == dval(*p)
                && forall|j: int|
                0 <= j < i ==> dval((#[trigger] entries@[j]).0) != dval(*p),
            None => forall|j: int|
                0 <= j < entries@.len() ==> dval((#[trigger] entries@[j]).0) != dval(*p),
        },
{
    let n = entries.len();
    let mut i: usize = 0;
    while i < n
        invariant
            i <= n,
            n == entries@.len(),
            p.wf(),
            forall|k: int| 0 <= k < entries@.len() ==> entry_wf(#[trigger] entries@[k]),
            forall|j: int| 0 <= j < i ==> dval((#[trigger] entries@[j]).0) != dval(*p),
        decreases n - i,
    {
        if dec_eq(&entries[i].0, p) {
            return Some(i);
        }
        i = i + 1;
    }
    None
}

fn find_insert_pos(side: Side, entries: &Vec<(Decimal, Decimal)>, p: &Decimal) -> (r: usize)
    requires
        p.wf(),
        forall|i: int| 0 <= i < entries@.len() ==> entry_wf(#[trigger] entries@[i]),
    ensures
        r <= entries@.len(),
        forall|j: int|
            0 <= j < r ==> price_before(side, dval((#[trigger] entries@[j]).0), dval(*p)),
        r < entries@.len() ==> !price_before(side, dval(entries@[r as int].0), dval(*p)),
{
    let n = entries.len();
    let mut i: usize = 0;
    while i < n
        invariant
            i <= n,
            n == entries@.len(),
            p.wf(),
            forall|k: int| 0 <= k < entries@.len() ==> entry_wf(#[trigger] entries@[k]),
            forall|j: int|
                0 <= j < i ==> price_before(side, dval((#[trigger] entries@[j]).0), dval(*p)),
        decreases n - i,
    {
        if !before(side, &entries[i].0, p) {
            return i;
        }
        i = i + 1;
    }
    n
}

impl Ladder {
    /// Well-formed: entries sorted best-first for the side, all entries
    /// well formed.
    pub open spec fn wf(self) -> bool {
        depth_wf(self.side, self.entries@)
    }

    /// The front (best) entry, or `None` on an empty ladder.
    pub fn best(&self) -> (r: Option<(Decimal, Decimal)>)
        ensures
            r == if self.entries@.len() == 0 {
                None::<(Decimal, Decimal)>
            } else {
                Some(self.entries@[0])
            },
    {
        if self.entries.len() == 0 {
            None
        } else {
            Some(self.entries[0])
        }
    }

    /// A copy of the entries in ladder order.
    pub fn snapshot(&self) -> (r: Vec<(Decimal, Decimal)>)
        ensures
            r@ == self.entries@,
    {
        let n = self.entries.len();
        let mut out: Vec<(Decimal, Decimal)> = Vec::new();
        let mut i: usize = 0;
        while i < n
            invariant
                i <= n,
                n == self.entries@.len(),
                out@ == self.entries@.take(i as int),
            decreases n - i,
        {
            out.push(self.entries[i]);
            proof {
                assert(out@ =~= self.entries@.take(i + 1));
            }
            i = i + 1;
        }
        proof {
            assert(self.entries@.take(n as int) =~= self.entries@);
        }
        out
    }

    /// Applies one diff change: quantity zero removes the price if
    /// present; a positive quantity replaces the entry in place or
    /// inserts it at the unique order-preserving position.
    pub fn apply_change(&mut self, price: Decimal, qty: Decimal)
        requires
            old(self).wf(),
            price.wf(),
            qty.wf(),
            dval(price) >= 0,
            dval(qty) >= 0,
        ensures
            final(self).wf(),
            final(self).side == old(self).side,
            forall|v: int| #[trigger]
                level_of(final(self).entries@, v) == apply_change_level(
                    price,
                    qty,
                    v,
                    level_of(old(self).entries@, v),
                ),
    {
        let ghost s0 = self.entries@;
        let ghost side = self.side;
        let pos = find_price(&self.entries, &price);
        if qty.is_zero() {
            match pos {
                Some(i) => {
                    self.entries.remove(i);
                    proof {
                        assert forall|v: int| #[trigger]
                            level_of(self.entries@, v) == apply_change_level(
                                price,
                                qty,
                                v,
                                level_of(s0, v),
                            ) by {
                            lemma_remove_keeps(side, s0, i as int, v);
                        }
                        lemma_remove_keeps(side, s0, i as int, 0);
                    }
                },
                None => {
                    proof {
                        assert forall|v: int| #[trigger]
                            level_of(self.entries@, v) == apply_change_level(
                                price,
                                qty,
                                v,
                                level_of(s0, v),
                            ) by {
                            if v == dval(price) {
                                lemma_level_of_absent(s0, v);
                            }
                        }
                    }
                },
            }
        } else {
            match pos {
                Some(i) => {
                    self.entries.set(i, (price, qty));
                    proof {
                        assert forall|v: int| #[trigger]
                            level_of(self.entries@, v) == apply_change_level(
                                price,
                                qty,
                                v,
                                level_of(s0, v),
                            ) by {
                            lemma_update_keeps(side, s0, i as int, (price, qty), v);
                        }
                        lemma_update_keeps(side, s0, i as int, (price, qty), 0);
                    }
                },
                None => {
                    let i = find_insert_pos(self.side, &self.entries, &price);
                    self.entries.insert(i, (price, qty));
                    proof {
                        assert forall|v: int| #[trigger]
                            level_of(self.entries@, v) == apply_change_level(
                                price,
                                qty,
                                v,
                                level_of(s0, v),
                            ) by {
                            lemma_insert_keeps(side, s0, i as int, (price, qty), v);
                        }
                        lemma_insert_keeps(side, s0, i as int, (price, qty), 0);
                    }
                },
            }
        }
    }

    /// Applies a diff's change list in the order given. The resulting
    /// entry at every price value is the fold of the changes over the old
    /// entry at that value.
    pub fn apply_changes(&mut self, changes: &Vec<(Decimal, Decimal)>)
        requires
            old(self).wf(),
            changes_wf(changes@),
        ensures
            final(self).wf(),
            final(self).side == old(self).side,
            forall|v: int| #[trigger]
                level_of(final(self).entries@, v) == apply_level(
                    changes@,
                    v,
                    level_of(old(self).entries@, v),
                ),
    {
        let ghost orig = self.entries@;
        let n = changes.len();
        proof {
            assert(changes@.take(0) =~= Seq::<(Decimal, Decimal)>::empty());
        }
        let mut k: usize = 0;
        while k < n
            invariant
                k <= n,
                n == changes@.len(),
                changes_wf(changes@),
                self.wf(),
                self.side == old(self).side,
                forall|v: int| #[trigger]
                    level_of(self.entries@, v) == apply_level(
                        changes@.take(k as int),
                        v,
                        level_of(orig, v),
                    ),
            decreases n - k,
        {
            let (p, q) = changes[k];
            let ghost mid = self.entries@;
            assert(change_wf(changes@[k as int]));
            self.apply_change(p, q);
            proof {
                assert(changes@.take(k + 1) =~= changes@.take(k as int).push(changes@[k as int]));
                assert forall|v: int| #[trigger]
                    level_of(self.entries@, v) == apply_level(
                        changes@.take(k + 1),
                        v,
                        level_of(orig, v),
                    ) by {
                    lemma_apply_level_push(
                        changes@.take(k as int),
                        changes@[k as int],
                        v,
                        level_of(orig, v),
                    );
                    assert(level_of(mid, v) == apply_level(
                        changes@.take(k as int),
                        v,
                        level_of(orig, v),
                    ));
                }
            }
            k = k + 1;
        }
        proof {
            assert(changes@.take(n as int) =~= changes@);
        }
    }
}

/// Checks a single stored entry for well-formedness.
pub fn entry_is_wf(e: &(Decimal, Decimal)) -> (r: bool)
    ensures
        r == entry_wf(*e),
{
    proof {
        crate::decimal::lemma_dval_sign(e.0);
        crate::decimal::lemma_dval_sign(e.1);
    }
    e.0.scale <= SCALE_MAX && -MANT_MAX <= e.0.mantissa && e.0.mantissa <= MANT_MAX
        && e.1.scale <= SCALE_MAX && -MANT_MAX <= e.1.mantissa && e.1.mantissa <= MANT_MAX
        && e.0.mantissa >= 0 && e.1.mantissa > 0
}

/// Checks a single diff change for well-formedness.
pub fn change_is_wf(c: &(Decimal, Decimal)) -> (r: bool)
    ensures
        r == change_wf(*c),
{
    proof {
        crate::decimal::lemma_dval_sign(c.0);
        crate::decimal::lemma_dval_sign(c.1);
    }
    c.0.scale <= SCALE_MAX && -MANT_MAX <= c.0.mantissa && c.0.mantissa <= MANT_MAX
        && c.1.scale <= SCALE_MAX && -MANT_MAX <= c.1.mantissa && c.1.mantissa <= MANT_MAX
        && c.0.mantissa >= 0 && c.1.mantissa >= 0
}

/// Checks a whole change list for well-formedness.
pub fn changes_are_wf(changes: &Vec<(Decimal, Decimal)>) -> (r: bool)
    ensures
        r == changes_wf(changes@),
{
    let n = changes.len();
    let mut i: usize = 0;
    while i < n
        invariant
            i <= n,
            n == changes@.len(),
            forall|k: int| 0 <= k < i ==> change_wf(#[trigger] changes@[k]),
        decreases n - i,
    {
        if !change_is_wf(&changes[i]) {
            return false;
        }
        i = i + 1;
    }
    true
}

/// Adjacent order implies full order.
proof fn lemma_adjacent_sorted_chain(side: Side, s: Seq<(Decimal, Decimal)>, i: int, j: int)
    requires
        forall|k: int|
            0 <= k < s.len() - 1 ==> price_before(
                side,
                dval((#[trigger] s[k]).0),
                dval(s[k + 1].0),
            ),
        0 <= i < j < s.len(),
    ensures
        price_before(side, dval(s[i].0), dval(s[j].0)),
    decreases j - i,
{
    if j > i + 1 {
        lemma_adjacent_sorted_chain(side, s, i, j - 1);
        assert(price_before(side, dval(s[j - 1].0), dval(s[j].0)));
    } else {
        assert(price_before(side, dval(s[i].0), dval(s[i + 1].0)));
    }
}

/// Checks that a depth sequence is well formed for the side.
pub fn depth_is_wf(side: Side, entries: &Vec<(Decimal, Decimal)>) -> (r: bool)
    ensures
        r == depth_wf(side, entries@),
{
    let n = entries.len();
    let mut i: usize = 0;
    while i < n
        invariant
            i <= n,
            n == entries@.len(),
            forall|k: int| 0 <= k < i ==> entry_wf(#[trigger] entries@[k]),
            forall|k: int|
                0 <= k < i - 1 ==> price_before(
                    side,
                    dval((#[trigger] entries@[k]).0),
                    dval(entries@[k + 1].0),
                ),
        decreases n - i,
    {
        if !entry_is_wf(&entries[i]) {
            return false;
        }
        if i > 0 {
            if !before(side, &entries[i - 1].0, &entries[i].0) {
                return false;
            }
        }
        i = i + 1;
    }
    proof {
        assert forall|x: int, y: int| #![trigger entries@[x], entries@[y]]
            0 <= x < y < entries@.len() implies price_before(
            side,
            dval(entries@[x].0),
            dval(entries@[y].0),
        ) by {
            lemma_adjacent_sorted_chain(side, entries@, x, y);
        }
    }
    true
}

impl Ladder {
    /// Builds a ladder from a snapshot's depth after validating it.
    pub fn from_entries(side: Side, entries: Vec<(Decimal, Decimal)>) -> (r: Option<Ladder>)
        ensures
            match r {
                Some(l) => depth_wf(side, entries@) && l.wf() && l.side == side && l.entries@
                    == entries@,
                None => !depth_wf(side, entries@),
            },
    {
        if depth_is_wf(side, &entries) {
            Some(Ladder { side, entries })
        } else {
            None
        }
    }
}

} // verus!
