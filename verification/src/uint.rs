//! A 256-bit unsigned integer and the balance conversions.
//!
//! Balances are 128-bit; some host arithmetic runs over 256 bits.  The
//! two converter types carry a balance into the wide form and back.

use vstd::prelude::*;

verus! {

/// A 256-bit unsigned integer as two 128-bit halves.
#[derive(Clone, Copy, Debug, PartialEq, Eq, Structural)]
pub struct U256 {
    /// The low 128 bits.
    pub lo: u128,
    /// The high 128 bits.
    pub hi: u128,
}

impl U256 {
    /// The number this value denotes.
    pub open spec fn value(self) -> int {
        self.lo + self.hi * 0x100000000000000000000000000000000
    }

    /// The zero value.
    pub fn zero() -> (r: U256)
        ensures
            r.value() == 0,
    {
        U256 { lo: 0, hi: 0 }
    }

    /// Widen a 128-bit integer.
    pub fn from_u128(n: u128) -> (r: U256)
        ensures
            r.value() == n,
            r.hi == 0,
    {
        U256 { lo: n, hi: 0 }
    }

    /// Narrow to 128 bits, when the value fits.
    pub fn to_u128(self) -> (r: Option<u128>)
        ensures
            match r {
                Some(v) => self.value() == v,
                None => self.value() > u128::MAX,
            },
    {
        if self.hi == 0 {
            Some(self.lo)
        } else {
            proof {
                assert(self.hi * 0x100000000000000000000000000000000
                    >= 0x100000000000000000000000000000000) by (nonlinear_arith)
                    requires
                        self.hi >= 1,
                ;
            }
            None
        }
    }

}

/// Carries a balance into the 256-bit form.
pub struct BalanceToU256;

impl BalanceToU256 {
    /// The widening conversion; nothing is lost.
    pub fn convert(n: u128) -> (r: U256)
        ensures
            r.value() == n,
    {
        U256::from_u128(n)
    }
}

/// Carries a 256-bit value back into a balance.
pub struct U256ToBalance;

impl U256ToBalance {
    /// The narrowing conversion, defined for values a balance can hold.
    pub fn convert(n: U256) -> (r: u128)
        requires
            n.value() <= u128::MAX,
        ensures
            r == n.value(),
    {
        proof {
            if n.hi != 0 {
                assert(n.hi * 0x100000000000000000000000000000000
                    >= 0x100000000000000000000000000000000) by (nonlinear_arith)
                    requires
                        n.hi >= 1,
                ;
            }
        }
        n.lo
    }
}

} // verus!
