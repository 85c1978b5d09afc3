//! Quote updates and the prices derived from them.
//!
//! A valid update carries an instrument identifier, the best bid and ask
//! prices, and the quantities available at each, all fixed-point scaled.
//! From it the engine derives the mid price and the size-weighted mid
//! price, which biases toward the side with less available size.

use vstd::arithmetic::div_mod::{lemma_div_is_ordered, lemma_div_multiples_vanish};
use vstd::prelude::*;
use crate::decimal::MAX_SCALED;

verus! {

/// A decoded, validated top-of-book update.
pub struct QuoteUpdate {
    pub symbol: String,
    pub bid: u64,
    pub ask: u64,
    pub bid_qty: u64,
    pub ask_qty: u64,
}

/// Bounds under which the derived prices exist and are computed without
/// overflow: every field fits the fixed-point range and at least one
/// side has size.
pub open spec fn quote_bounds_ok(bid: int, ask: int, bid_qty: int, ask_qty: int) -> bool {
    &&& 0 <= bid <= MAX_SCALED
    &&& 0 <= ask <= MAX_SCALED
    &&& 0 <= bid_qty <= MAX_SCALED
    &&& 0 <= ask_qty <= MAX_SCALED
    &&& bid_qty + ask_qty > 0
}

/// Mid price: arithmetic mean of bid and ask, floored at the
/// fixed-point resolution.
pub open spec fn mid_of(bid: int, ask: int) -> int {
    (bid + ask) / 2
}

/// Size-weighted mid price: each price weighted by the quantity on the
/// opposing side, floored at the fixed-point resolution.
pub open spec fn wmid_of(bid: int, ask: int, bid_qty: int, ask_qty: int) -> int {
    (bid * ask_qty + ask * bid_qty) / (bid_qty + ask_qty)
}

impl QuoteUpdate {
    pub open spec fn wf(self) -> bool {
        quote_bounds_ok(self.bid as int, self.ask as int, self.bid_qty as int, self.ask_qty as int)
    }

    pub open spec fn spec_mid(self) -> int {
        mid_of(self.bid as int, self.ask as int)
    }

    pub open spec fn spec_weighted_mid(self) -> int {
        wmid_of(self.bid as int, self.ask as int, self.bid_qty as int, self.ask_qty as int)
    }

    /// Mid price of this quote.
    pub fn mid(&self) -> (r: u64)
        requires
            self.wf(),
        ensures
            r == self.spec_mid(),
            r <= MAX_SCALED,
    {
        (self.bid + self.ask) / 2
    }

    /// Size-weighted mid price of this quote.
    pub fn weighted_mid(&self) -> (r: u64)
        requires
            self.wf(),
        ensures
            r == self.spec_weighted_mid(),
            r <= MAX_SCALED,
    {
        proof {
            assert(0 <= (self.bid as int) * (self.ask_qty as int) <= 100_000_000_000_000_000
                * 100_000_000_000_000_000int) by (nonlinear_arith)
                requires
                    0 <= self.bid <= 100_000_000_000_000_000,
                    0 <= self.ask_qty <= 100_000_000_000_000_000,
            ;
            assert(0 <= (self.ask as int) * (self.bid_qty as int) <= 100_000_000_000_000_000
                * 100_000_000_000_000_000int) by (nonlinear_arith)
                requires
                    0 <= self.ask <= 100_000_000_000_000_000,
                    0 <= self.bid_qty <= 100_000_000_000_000_000,
            ;
        }
        let num: u128 = (self.bid as u128) * (self.ask_qty as u128) + (self.ask as u128)
            * (self.bid_qty as u128);
        let den: u128 = (self.bid_qty as u128) + (self.ask_qty as u128);
        proof {
            lemma_weighted_mid_between(
                self.bid as int,
                self.ask as int,
                self.bid_qty as int,
                self.ask_qty as int,
            );
        }
        (num / den) as u64
    }
}

/// For every valid quote with positive total quantity, the weighted mid
/// price lies between the bid and ask prices, inclusive (between the
/// smaller and the larger of the two).
pub proof fn lemma_weighted_mid_between(bid: int, ask: int, bid_qty: int, ask_qty: int)
    requires
        quote_bounds_ok(bid, ask, bid_qty, ask_qty),
    ensures
        bid <= ask ==> bid <= wmid_of(bid, ask, bid_qty, ask_qty) <= ask,
        ask <= bid ==> ask <= wmid_of(bid, ask, bid_qty, ask_qty) <= bid,
{
    let lo = if bid <= ask { bid } else { ask };
    let hi = if bid <= ask { ask } else { bid };
    let num = bid * ask_qty + ask * bid_qty;
    let den = bid_qty + ask_qty;
    assert(lo * den <= num <= hi * den) by (nonlinear_arith)
        requires
            lo <= bid <= hi,
            lo <= ask <= hi,
            bid_qty >= 0,
            ask_qty >= 0,
            den == bid_qty + ask_qty,
            num == bid * ask_qty + ask * bid_qty,
    ;
    lemma_div_is_ordered(lo * den, num, den);
    lemma_div_is_ordered(num, hi * den, den);
    lemma_div_multiples_vanish(lo, den);
    lemma_div_multiples_vanish(hi, den);
    assert(lo * den == den * lo) by (nonlinear_arith);
    assert(hi * den == den * hi) by (nonlinear_arith);
}

} // verus!
