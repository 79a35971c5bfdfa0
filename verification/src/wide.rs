//! Products and sums that do not fit in 128 bits, kept exact.

use vstd::prelude::*;

verus! {

/// Two to the power 64.
pub open spec fn limb() -> int {
    0x1_0000_0000_0000_0000
}

/// Two to the power 128.
pub open spec fn base() -> int {
    0x1_0000_0000_0000_0000_0000_0000_0000_0000int
}

/// A natural number below two to the power 256, in two halves.
#[derive(Clone, Copy, Debug)]
pub struct Wide {
    pub high: u128,
    pub low: u128,
}

impl Wide {
    /// The number that the two halves stand for.
    pub open spec fn value(self) -> int {
        self.high * base() + self.low
    }
}

/// The product of two numbers, exact.
pub fn product(a: u128, b: u128) -> (wide: Wide)
    ensures
        wide.value() == a * b,
{
    let a0: u128 = a % 0x1_0000_0000_0000_0000;
    let a1: u128 = a / 0x1_0000_0000_0000_0000;
    let b0: u128 = b % 0x1_0000_0000_0000_0000;
    let b1: u128 = b / 0x1_0000_0000_0000_0000;
    proof {
        assert(a0 * b0 <= 0xffff_ffff_ffff_ffff * 0xffff_ffff_ffff_ffff && a0 * b1
            <= 0xffff_ffff_ffff_ffff * 0xffff_ffff_ffff_ffff && a1 * b0 <= 0xffff_ffff_ffff_ffff
            * 0xffff_ffff_ffff_ffff && a1 * b1 <= 0xffff_ffff_ffff_ffff * 0xffff_ffff_ffff_ffff)
            by (nonlinear_arith)
            requires
                a0 <= 0xffff_ffff_ffff_ffff,
                a1 <= 0xffff_ffff_ffff_ffff,
                b0 <= 0xffff_ffff_ffff_ffff,
                b1 <= 0xffff_ffff_ffff_ffff,
        ;
    }
    let p00: u128 = a0 * b0;
    let p01: u128 = a0 * b1;
    let p10: u128 = a1 * b0;
    let p11: u128 = a1 * b1;
    let mid: u128 = p01 + p00 / 0x1_0000_0000_0000_0000;
    let mid2: u128 = p10 + mid % 0x1_0000_0000_0000_0000;
    let low: u128 = (mid2 % 0x1_0000_0000_0000_0000) * 0x1_0000_0000_0000_0000 + p00
        % 0x1_0000_0000_0000_0000;
    let high: u128 = p11 + mid / 0x1_0000_0000_0000_0000 + mid2 / 0x1_0000_0000_0000_0000;
    proof {
        assert(a * b == p11 * base() + (p01 + p10) * limb() + p00) by (nonlinear_arith)
            requires
                a == a1 * limb() + a0,
                b == b1 * limb() + b0,
                p00 == a0 * b0,
                p01 == a0 * b1,
                p10 == a1 * b0,
                p11 == a1 * b1,
                base() == limb() * limb(),
        ;
    }
    Wide { high, low }
}

/// A natural number below two to the power 384, in three parts.
#[derive(Clone, Copy, Debug)]
pub struct Wider {
    pub top: u128,
    pub high: u128,
    pub low: u128,
}

impl Wider {
    /// The number that the three parts stand for.
    pub open spec fn value(self) -> int {
        (self.top * base() + self.high) * base() + self.low
    }
}

/// The product of a wide number and a factor, exact.
pub fn scaled(wide: Wide, factor: u128) -> (wider: Wider)
    ensures
        wider.value() == wide.value() * factor,
{
    let lower = product(wide.low, factor);
    let upper = product(wide.high, factor);
    proof {
        // the upper product is at most the square of the largest half, so
        // its high half has room for a carry
        assert(wide.high * factor <= (base() - 1) * (base() - 1)) by (nonlinear_arith)
            requires
                0 <= wide.high <= base() - 1,
                0 <= factor <= base() - 1,
        ;
        assert(upper.high <= base() - 2) by (nonlinear_arith)
            requires
                upper.high * base() + upper.low == wide.high * factor,
                wide.high * factor <= (base() - 1) * (base() - 1),
                0 <= upper.low,
                0 <= upper.high,
        ;
    }
    let (high, carry) = half_sum(upper.low, lower.high, false);
    let top: u128 = if carry {
        upper.high + 1
    } else {
        upper.high
    };
    proof {
        assert((wide.high * base() + wide.low) * factor == (wide.high * factor) * base() + wide.low
            * factor) by (nonlinear_arith);
        assert((upper.high * base() + upper.low) * base() == upper.high * base() * base()
            + upper.low * base()) by (nonlinear_arith);
        assert((top * base() + high) * base() == top * base() * base() + high * base())
            by (nonlinear_arith);
        assert((upper.high + 1) * base() * base() == upper.high * base() * base() + base() * base())
            by (nonlinear_arith);
    }
    Wider { top, high, low: lower.low }
}

/// Whether `a + b < c + d`, exact.
pub fn sum_below(a: Wider, b: Wider, c: Wider, d: Wider) -> (below: bool)
    ensures
        below == (a.value() + b.value() < c.value() + d.value()),
{
    let left = carried_sum(a, b);
    let right = carried_sum(c, d);
    proof {
        assert forall|w: Wider| 0 <= #[trigger] w.value() < base() * base() * base() by {
            lemma_wider_range(w);
        }
        assert forall|v: Wider, w: Wider|
            (#[trigger] v.value() < #[trigger] w.value()) <==> (v.top < w.top || (v.top == w.top
                && (v.high < w.high || (v.high == w.high && v.low < w.low)))) by {
            lemma_wider_order(v, w);
            lemma_wider_order(w, v);
        }
    }
    if left.0 != right.0 {
        !left.0
    } else if left.1.top != right.1.top {
        left.1.top < right.1.top
    } else if left.1.high != right.1.high {
        left.1.high < right.1.high
    } else {
        left.1.low < right.1.low
    }
}

proof fn lemma_wider_range(w: Wider)
    ensures
        0 <= w.value() < base() * base() * base(),
{
    assert((w.top * base() + w.high) * base() + w.low < base() * base() * base())
        by (nonlinear_arith)
        requires
            0 <= w.top <= base() - 1,
            0 <= w.high <= base() - 1,
            0 <= w.low <= base() - 1,
            base() > 0,
    ;
    assert(0 <= (w.top * base() + w.high) * base() + w.low) by (nonlinear_arith)
        requires
            0 <= w.top,
            0 <= w.high,
            0 <= w.low,
            base() > 0,
    ;
}

proof fn lemma_wider_order(v: Wider, w: Wider)
    ensures
        v.top < w.top || (v.top == w.top && (v.high < w.high || (v.high == w.high && v.low
            < w.low))) ==> v.value() < w.value(),
{
    assert(v.top < w.top ==> (v.top * base() + v.high) * base() + v.low < (w.top * base()
        + w.high) * base() + w.low) by (nonlinear_arith)
        requires
            0 <= v.top <= base() - 1,
            0 <= v.high <= base() - 1,
            0 <= v.low <= base() - 1,
            0 <= w.top <= base() - 1,
            0 <= w.high <= base() - 1,
            0 <= w.low <= base() - 1,
            base() > 0,
    ;
    assert(v.top == w.top && v.high < w.high ==> (v.top * base() + v.high) * base() + v.low < (
    w.top * base() + w.high) * base() + w.low) by (nonlinear_arith)
        requires
            0 <= v.low <= base() - 1,
            0 <= w.low <= base() - 1,
            base() > 0,
    ;
}

/// The sum of two numbers: whether it reached two to the power 384, and
/// what is left below that.
fn carried_sum(a: Wider, b: Wider) -> (sum: (bool, Wider))
    ensures
        (if sum.0 {
            base() * base() * base()
        } else {
            0
        }) + sum.1.value() == a.value() + b.value(),
{
    let (low, carry) = half_sum(a.low, b.low, false);
    let (high, more) = half_sum(a.high, b.high, carry);
    let (top, over) = half_sum(a.top, b.top, more);
    proof {
        assert((a.top * base() + a.high) * base() + (b.top * base() + b.high) * base() == (a.top
            + b.top) * base() * base() + (a.high + b.high) * base()) by (nonlinear_arith);
        assert((top * base() + high) * base() == top * base() * base() + high * base())
            by (nonlinear_arith);
        assert((a.top + b.top + 1 - base()) * base() * base() == (a.top + b.top + 1) * base()
            * base() - base() * base() * base()) by (nonlinear_arith);
        assert((a.top + b.top - base()) * base() * base() == (a.top + b.top) * base() * base()
            - base() * base() * base()) by (nonlinear_arith);
        assert((a.top + b.top + 1) * base() * base() == (a.top + b.top) * base() * base() + base()
            * base()) by (nonlinear_arith);
        assert((a.high + b.high + 1 - base()) * base() == (a.high + b.high + 1) * base() - base()
            * base()) by (nonlinear_arith);
        assert((a.high + b.high - base()) * base() == (a.high + b.high) * base() - base() * base())
            by (nonlinear_arith);
        assert((a.high + b.high + 1) * base() == (a.high + b.high) * base() + base())
            by (nonlinear_arith);
    }
    (over, Wider { top, high, low })
}

/// The sum of two halves and a carry: what is left below two to the power
/// 128, and whether that power was reached.
fn half_sum(a: u128, b: u128, carry: bool) -> (sum: (u128, bool))
    ensures
        sum.0 + (if sum.1 {
            base()
        } else {
            0
        }) == a + b + (if carry {
            1int
        } else {
            0int
        }),
{
    let one: u128 = if carry {
        1
    } else {
        0
    };
    let room: u128 = u128::MAX - a;
    if b > room {
        // a + b reaches the base: b - room - 1 is what is left.
        (b - room - 1 + one, true)
    } else if b == room && carry {
        (0, true)
    } else {
        (a + b + one, false)
    }
}

} // verus!
