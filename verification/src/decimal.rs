//! Exact decimal numbers for prices and quantities.
//!
//! A `Decimal` holds an integer mantissa and a decimal scale; its value is
//! `mantissa / 10^scale`. Both are bounded so that every comparison and
//! every exact arithmetic step fits in machine integers. The mathematical
//! value of a well-formed decimal is modelled by `dval`, the value as a
//! fixed-point integer at scale `2 * SCALE_MAX`; all contracts speak of
//! `dval`, under which numerical order is plain integer order.

use vstd::prelude::*;
use vstd::arithmetic::mul::{
    lemma_mul_equality_converse, lemma_mul_is_associative, lemma_mul_is_distributive_add_other_way,
    lemma_mul_strict_inequality, lemma_mul_strict_inequality_converse, lemma_mul_unary_negation,
};
use vstd::arithmetic::power::{lemma_pow1, lemma_pow_adds, lemma_pow_increases, lemma_pow_positive, pow};

verus! {

/// Largest admitted scale (number of fractional digits).
pub const SCALE_MAX: u32 = 18;

/// Largest admitted mantissa magnitude: `10^18`.
pub const MANT_MAX: i128 = 1_000_000_000_000_000_000;

/// `10^36`, the largest power of ten that comparisons multiply by.
pub const POW_TEN_DOUBLE: i128 = 1_000_000_000_000_000_000_000_000_000_000_000_000;

/// A decimal number `mantissa / 10^scale`.
#[derive(Clone, Copy, Debug, PartialEq, Eq, Structural)]
pub struct Decimal {
    pub mantissa: i128,
    pub scale: u32,
}

/// 10 raised to `e`.
pub open spec fn pow10(e: nat) -> int {
    pow(10, e)
}

impl Decimal {
    /// A decimal is well formed when its scale and mantissa are in bounds.
    pub open spec fn wf(self) -> bool {
        self.scale <= SCALE_MAX && -MANT_MAX <= self.mantissa <= MANT_MAX
    }
}

/// The value of a decimal as a fixed-point integer at scale `2 * SCALE_MAX`:
/// `dval(d) == d.mantissa * 10^(36 - d.scale)`. For well-formed decimals,
/// numerical order of values is integer order of `dval`.
pub open spec fn dval(d: Decimal) -> int {
    d.mantissa * pow10((2 * SCALE_MAX - d.scale) as nat)
}

pub proof fn lemma_pow10_pos(e: nat)
    ensures
        pow10(e) > 0,
{
    lemma_pow_positive(10, e);
}

/// Concrete values of the powers of ten the proofs lean on.
pub proof fn lemma_pow10_vals()
    ensures
        pow10(0) == 1,
        pow10(1) == 10,
        pow10(18) == MANT_MAX,
        pow10(36) == POW_TEN_DOUBLE,
{
    vstd::arithmetic::power::lemma_pow0(10);
    lemma_pow1(10);
    lemma_pow_adds(10, 1, 1);
    assert(pow10(2) == 100);
    lemma_pow_adds(10, 2, 2);
    assert(pow10(4) == 10000);
    lemma_pow_adds(10, 4, 4);
    assert(pow10(8) == 100000000);
    lemma_pow_adds(10, 8, 1);
    assert(pow10(9) == 1000000000);
    lemma_pow_adds(10, 9, 9);
    assert(pow10(18) == MANT_MAX);
    lemma_pow_adds(10, 18, 18);
    assert(pow10(36) == POW_TEN_DOUBLE);
}

pub proof fn lemma_pow10_le(e: nat)
    requires
        e <= 36,
    ensures
        0 < pow10(e) <= POW_TEN_DOUBLE,
        e <= 18 ==> pow10(e) <= MANT_MAX,
{
    lemma_pow10_pos(e);
    lemma_pow10_vals();
    lemma_pow_increases(10, e, 36);
    if e <= 18 {
        lemma_pow_increases(10, e, 18);
    }
}

/// `10^e` as a machine integer.
pub fn pow10_i128(e: u32) -> (r: i128)
    requires
        e <= 2 * SCALE_MAX,
    ensures
        r == pow10(e as nat),
{
    let mut acc: i128 = 1;
    let mut i: u32 = 0;
    proof {
        vstd::arithmetic::power::lemma_pow0(10);
    }
    while i < e
        invariant
            i <= e,
            e <= 36,
            acc == pow10(i as nat),
        decreases e - i,
    {
        proof {
            lemma_pow_adds(10, i as nat, 1);
            lemma_pow1(10);
            lemma_pow10_le((i + 1) as nat);
            lemma_pow10_pos(i as nat);
        }
        acc = acc * 10;
        i = i + 1;
    }
    acc
}

/// The sign of `dval` is the sign of the mantissa.
pub proof fn lemma_dval_sign(d: Decimal)
    ensures
        dval(d) > 0 <==> d.mantissa > 0,
        dval(d) == 0 <==> d.mantissa == 0,
        dval(d) < 0 <==> d.mantissa < 0,
{
    let p = pow10((2 * SCALE_MAX - d.scale) as nat);
    lemma_pow10_pos((2 * SCALE_MAX - d.scale) as nat);
    assert((d.mantissa > 0 <==> d.mantissa * p > 0) && (d.mantissa == 0 <==> d.mantissa * p == 0)
        && (d.mantissa < 0 <==> d.mantissa * p < 0)) by (nonlinear_arith)
        requires
            p > 0,
    ;
}

/// Cross-multiplied comparison agrees with comparison of `dval`s.
pub proof fn lemma_cross_cmp(a: Decimal, b: Decimal)
    requires
        a.wf(),
        b.wf(),
    ensures
        (a.mantissa * pow10(b.scale as nat) < b.mantissa * pow10(a.scale as nat)) <==> (dval(a)
            < dval(b)),
        (a.mantissa * pow10(b.scale as nat) == b.mantissa * pow10(a.scale as nat)) <==> (dval(a)
            == dval(b)),
{
    let sa = a.scale as nat;
    let sb = b.scale as nat;
    let k = (36 - sa - sb) as nat;
    let x = a.mantissa * pow10(sb);
    let y = b.mantissa * pow10(sa);
    lemma_pow10_pos(k);
    lemma_pow_adds(10, sb, k);
    lemma_pow_adds(10, sa, k);
    lemma_mul_is_associative(a.mantissa as int, pow10(sb), pow10(k));
    lemma_mul_is_associative(b.mantissa as int, pow10(sa), pow10(k));
    assert(dval(a) == x * pow10(k));
    assert(dval(b) == y * pow10(k));
    if x < y {
        lemma_mul_strict_inequality(x, y, pow10(k));
    }
    if x * pow10(k) < y * pow10(k) {
        lemma_mul_strict_inequality_converse(x, y, pow10(k));
    }
    if x * pow10(k) == y * pow10(k) {
        lemma_mul_equality_converse(pow10(k), x, y);
    }
}

/// Bound used to show that cross-multiplied products fit in `i128`.
proof fn lemma_cross_bound(m: i128, p: int)
    requires
        -MANT_MAX <= m <= MANT_MAX,
        0 < p <= MANT_MAX,
    ensures
        -POW_TEN_DOUBLE <= m * p <= POW_TEN_DOUBLE,
{
    assert(-POW_TEN_DOUBLE <= m * p <= POW_TEN_DOUBLE) by (nonlinear_arith)
        requires
            -MANT_MAX <= m <= MANT_MAX,
            0 < p <= MANT_MAX,
    ;
}

/// Numerical order: `dval(a) < dval(b)`.
pub fn dec_lt(a: &Decimal, b: &Decimal) -> (r: bool)
    requires
        a.wf(),
        b.wf(),
    ensures
        r == (dval(*a) < dval(*b)),
{
    let pa = pow10_i128(b.scale);
    let pb = pow10_i128(a.scale);
    proof {
        lemma_pow10_le(b.scale as nat);
        lemma_pow10_le(a.scale as nat);
        lemma_cross_bound(a.mantissa, pa as int);
        lemma_cross_bound(b.mantissa, pb as int);
        lemma_cross_cmp(*a, *b);
    }
    a.mantissa * pa < b.mantissa * pb
}

/// Numerical equality: `dval(a) == dval(b)`.
pub fn dec_eq(a: &Decimal, b: &Decimal) -> (r: bool)
    requires
        a.wf(),
        b.wf(),
    ensures
        r == (dval(*a) == dval(*b)),
{
    let pa = pow10_i128(b.scale);
    let pb = pow10_i128(a.scale);
    proof {
        lemma_pow10_le(b.scale as nat);
        lemma_pow10_le(a.scale as nat);
        lemma_cross_bound(a.mantissa, pa as int);
        lemma_cross_bound(b.mantissa, pb as int);
        lemma_cross_cmp(*a, *b);
    }
    a.mantissa * pa == b.mantissa * pb
}

impl Decimal {
    /// The decimal zero.
    pub fn zero() -> (r: Decimal)
        ensures
            r == (Decimal { mantissa: 0, scale: 0 }),
            dval(r) == 0,
            r.wf(),
    {
        let r = Decimal { mantissa: 0, scale: 0 };
        proof {
            lemma_dval_sign(r);
        }
        r
    }

    /// Builds a decimal after checking the bounds.
    pub fn new(mantissa: i128, scale: u32) -> (r: Option<Decimal>)
        ensures
            r == if (Decimal { mantissa, scale }).wf() {
                Some(Decimal { mantissa, scale })
            } else {
                None::<Decimal>
            },
    {
        if scale <= SCALE_MAX && -MANT_MAX <= mantissa && mantissa <= MANT_MAX {
            Some(Decimal { mantissa, scale })
        } else {
            None
        }
    }

    /// An integer as a decimal of scale zero.
    pub fn from_int(i: i64) -> (r: Option<Decimal>)
        ensures
            r == if -MANT_MAX <= i <= MANT_MAX {
                Some(Decimal { mantissa: i as i128, scale: 0 })
            } else {
                None::<Decimal>
            },
    {
        let m: i128 = i as i128;
        if -MANT_MAX <= m && m <= MANT_MAX {
            Some(Decimal { mantissa: m, scale: 0 })
        } else {
            None
        }
    }

    /// True when the value is zero.
    pub fn is_zero(&self) -> (r: bool)
        ensures
            r == (dval(*self) == 0),
    {
        proof {
            lemma_dval_sign(*self);
        }
        self.mantissa == 0
    }

    /// True when the value is strictly positive.
    pub fn is_positive(&self) -> (r: bool)
        ensures
            r == (dval(*self) > 0),
    {
        proof {
            lemma_dval_sign(*self);
        }
        self.mantissa > 0
    }
}

/// The negation of a decimal.
pub open spec fn neg_spec(d: Decimal) -> Decimal {
    Decimal { mantissa: (-d.mantissa) as i128, scale: d.scale }
}

pub proof fn lemma_neg_val(d: Decimal)
    requires
        d.wf(),
    ensures
        neg_spec(d).wf(),
        dval(neg_spec(d)) == -dval(d),
{
    lemma_mul_unary_negation(d.mantissa as int, pow10((2 * SCALE_MAX - d.scale) as nat));
}

/// The exact sum, or `None` when it leaves the representable range.
pub open spec fn add_spec(a: Decimal, b: Decimal) -> Option<Decimal> {
    let s = if a.scale >= b.scale {
        a.scale
    } else {
        b.scale
    };
    let m = a.mantissa * pow10((s - a.scale) as nat) + b.mantissa * pow10((s - b.scale) as nat);
    if -MANT_MAX <= m <= MANT_MAX {
        Some(Decimal { mantissa: m as i128, scale: s })
    } else {
        None
    }
}

/// The exact difference, or `None` when it leaves the representable range.
pub open spec fn sub_spec(a: Decimal, b: Decimal) -> Option<Decimal> {
    add_spec(a, neg_spec(b))
}

/// The exact product, or `None` when it leaves the representable range.
pub open spec fn mul_spec(a: Decimal, b: Decimal) -> Option<Decimal> {
    let m = a.mantissa * b.mantissa;
    let s = a.scale + b.scale;
    if -MANT_MAX <= m <= MANT_MAX && s <= SCALE_MAX {
        Some(Decimal { mantissa: m as i128, scale: s as u32 })
    } else {
        None
    }
}

/// An admitted sum denotes the exact sum of the values.
pub proof fn lemma_add_val(a: Decimal, b: Decimal)
    requires
        a.wf(),
        b.wf(),
        add_spec(a, b) is Some,
    ensures
        add_spec(a, b).unwrap().wf(),
        dval(add_spec(a, b).unwrap()) == dval(a) + dval(b),
{
    let s = if a.scale >= b.scale {
        a.scale
    } else {
        b.scale
    };
    let pa = pow10((s - a.scale) as nat);
    let pb = pow10((s - b.scale) as nat);
    let ps = pow10((2 * SCALE_MAX - s) as nat);
    let ma = a.mantissa * pa;
    let mb = b.mantissa * pb;
    lemma_mul_is_distributive_add_other_way(ps, ma, mb);
    lemma_mul_is_associative(a.mantissa as int, pa, ps);
    lemma_mul_is_associative(b.mantissa as int, pb, ps);
    lemma_pow_adds(10, (s - a.scale) as nat, (2 * SCALE_MAX - s) as nat);
    lemma_pow_adds(10, (s - b.scale) as nat, (2 * SCALE_MAX - s) as nat);
}

/// An admitted difference denotes the exact difference of the values.
pub proof fn lemma_sub_val(a: Decimal, b: Decimal)
    requires
        a.wf(),
        b.wf(),
        sub_spec(a, b) is Some,
    ensures
        sub_spec(a, b).unwrap().wf(),
        dval(sub_spec(a, b).unwrap()) == dval(a) - dval(b),
{
    lemma_neg_val(b);
    lemma_add_val(a, neg_spec(b));
}

/// An admitted product denotes the exact product of the values, read at
/// the doubled fixed-point scale.
pub proof fn lemma_mul_val(a: Decimal, b: Decimal)
    requires
        a.wf(),
        b.wf(),
        mul_spec(a, b) is Some,
    ensures
        mul_spec(a, b).unwrap().wf(),
        dval(mul_spec(a, b).unwrap()) * pow10((2 * SCALE_MAX) as nat) == dval(a) * dval(b),
        dval(a) >= 0 && dval(b) >= 0 ==> dval(mul_spec(a, b).unwrap()) >= 0,
{
    let r = mul_spec(a, b).unwrap();
    let ea = (2 * SCALE_MAX - a.scale) as nat;
    let eb = (2 * SCALE_MAX - b.scale) as nat;
    let er = (2 * SCALE_MAX - r.scale) as nat;
    lemma_pow_adds(10, ea, eb);
    lemma_pow_adds(10, er, (2 * SCALE_MAX) as nat);
    assert(ea + eb == er + 2 * SCALE_MAX);
    assert((a.mantissa * pow10(ea)) * (b.mantissa * pow10(eb)) == (a.mantissa * b.mantissa) * (
    pow10(ea) * pow10(eb))) by (nonlinear_arith);
    assert((r.mantissa * pow10(er)) * pow10((2 * SCALE_MAX) as nat) == r.mantissa * (pow10(er)
        * pow10((2 * SCALE_MAX) as nat))) by (nonlinear_arith);
    lemma_dval_sign(a);
    lemma_dval_sign(b);
    lemma_dval_sign(r);
    assert(a.mantissa >= 0 && b.mantissa >= 0 ==> a.mantissa * b.mantissa >= 0) by (nonlinear_arith);
}

/// Checked exact addition.
pub fn dec_add(a: &Decimal, b: &Decimal) -> (r: Option<Decimal>)
    requires
        a.wf(),
        b.wf(),
    ensures
        r == add_spec(*a, *b),
{
    let s = if a.scale >= b.scale {
        a.scale
    } else {
        b.scale
    };
    let pa = pow10_i128(s - a.scale);
    let pb = pow10_i128(s - b.scale);
    proof {
        lemma_pow10_le((s - a.scale) as nat);
        lemma_pow10_le((s - b.scale) as nat);
        lemma_cross_bound(a.mantissa, pa as int);
        lemma_cross_bound(b.mantissa, pb as int);
    }
    let m = a.mantissa * pa + b.mantissa * pb;
    if -MANT_MAX <= m && m <= MANT_MAX {
        Some(Decimal { mantissa: m, scale: s })
    } else {
        None
    }
}

/// The negation of a well-formed decimal.
pub fn dec_neg(a: &Decimal) -> (r: Decimal)
    requires
        a.wf(),
    ensures
        r == neg_spec(*a),
{
    Decimal { mantissa: -a.mantissa, scale: a.scale }
}

/// Checked exact subtraction.
pub fn dec_sub(a: &Decimal, b: &Decimal) -> (r: Option<Decimal>)
    requires
        a.wf(),
        b.wf(),
    ensures
        r == sub_spec(*a, *b),
{
    let nb = dec_neg(b);
    proof {
        lemma_neg_val(*b);
    }
    dec_add(a, &nb)
}

/// Checked exact multiplication.
pub fn dec_mul(a: &Decimal, b: &Decimal) -> (r: Option<Decimal>)
    requires
        a.wf(),
        b.wf(),
    ensures
        r == mul_spec(*a, *b),
{
    proof {
        lemma_cross_bound(a.mantissa, MANT_MAX as int);
        assert(-POW_TEN_DOUBLE <= a.mantissa * b.mantissa <= POW_TEN_DOUBLE) by (nonlinear_arith)
            requires
                -MANT_MAX <= a.mantissa <= MANT_MAX,
                -MANT_MAX <= b.mantissa <= MANT_MAX,
        ;
    }
    let m = a.mantissa * b.mantissa;
    let s = a.scale + b.scale;
    if -MANT_MAX <= m && m <= MANT_MAX && s <= SCALE_MAX {
        Some(Decimal { mantissa: m, scale: s })
    } else {
        None
    }
}

/// The scale at which quotients are truncated: the explicit precision
/// policy of the division.
pub const DIV_SCALE: u32 = 8;

/// The quotient truncated toward zero at scale `DIV_SCALE`, or `None`
/// when an intermediate value leaves the machine range. For non-negative
/// `a` and positive `b` the mantissa is the floor of `a / b` scaled by
/// `10^DIV_SCALE`.
pub open spec fn div_spec(a: Decimal, b: Decimal) -> Option<Decimal> {
    let e = b.scale + DIV_SCALE - a.scale;
    if e >= 0 {
        let num = a.mantissa * pow10(e as nat);
        if i128::MIN <= num <= i128::MAX {
            let q = num / (b.mantissa as int);
            if -MANT_MAX <= q <= MANT_MAX {
                Some(Decimal { mantissa: q as i128, scale: DIV_SCALE })
            } else {
                None
            }
        } else {
            None
        }
    } else {
        let q = (a.mantissa as int) / (b.mantissa * pow10((-e) as nat));
        if -MANT_MAX <= q <= MANT_MAX {
            Some(Decimal { mantissa: q as i128, scale: DIV_SCALE })
        } else {
            None
        }
    }
}

/// Checked division, truncating toward zero at scale `DIV_SCALE`.
pub fn dec_div(a: &Decimal, b: &Decimal) -> (r: Option<Decimal>)
    requires
        a.wf(),
        b.wf(),
        dval(*a) >= 0,
        dval(*b) > 0,
    ensures
        r == div_spec(*a, *b),
{
    proof {
        lemma_dval_sign(*a);
        lemma_dval_sign(*b);
    }
    if b.scale + DIV_SCALE >= a.scale {
        let e = b.scale + DIV_SCALE - a.scale;
        let p = pow10_i128(e);
        proof {
            lemma_pow10_pos(e as nat);
        }
        match a.mantissa.checked_mul(p) {
            None => None,
            Some(num) => {
                proof {
                    assert(num >= 0) by (nonlinear_arith)
                        requires
                            num == a.mantissa * p,
                            a.mantissa >= 0,
                            p > 0,
                    ;
                    lemma_div_le_num(num as int, b.mantissa as int);
                }
                let q = ((num as u128) / (b.mantissa as u128)) as i128;
                if -MANT_MAX <= q && q <= MANT_MAX {
                    Some(Decimal { mantissa: q, scale: DIV_SCALE })
                } else {
                    None
                }
            },
        }
    } else {
        let e = a.scale - (b.scale + DIV_SCALE);
        let p = pow10_i128(e);
        proof {
            lemma_pow10_le(e as nat);
            lemma_cross_bound(b.mantissa, p as int);
            assert(b.mantissa * p > 0) by (nonlinear_arith)
                requires
                    b.mantissa > 0,
                    p > 0,
            ;
            lemma_div_le_num(a.mantissa as int, (b.mantissa * p) as int);
        }
        let den = b.mantissa * p;
        let q = ((a.mantissa as u128) / (den as u128)) as i128;
        if -MANT_MAX <= q && q <= MANT_MAX {
            Some(Decimal { mantissa: q, scale: DIV_SCALE })
        } else {
            None
        }
    }
}

/// For non-negative `x` and positive `d`, the quotient lies between 0
/// and `x`.
proof fn lemma_div_le_num(x: int, d: int)
    requires
        x >= 0,
        d > 0,
    ensures
        0 <= x / d <= x,
{
    vstd::arithmetic::div_mod::lemma_div_is_ordered_by_denominator(x, 1, d);
    vstd::arithmetic::div_mod::lemma_div_basics_1(x);
    vstd::arithmetic::div_mod::lemma_div_pos_is_pos(x, d);
}

} // verus!
