//! Double-width unsigned arithmetic.
//!
//! The stall detectors compare `5 * sum(child elapsed)` against
//! `child count * node elapsed`, with elapsed times stored as `u128`; both
//! products can exceed 128 bits, so they are computed in a two-limb
//! representation and compared exactly.
use vstd::prelude::*;

verus! {

/// An unsigned value `hi * 2^128 + lo`.
pub struct Wide {
    pub hi: u128,
    pub lo: u128,
}

/// 2^128 as a mathematical integer.
pub open spec fn pow2_128() -> int {
    0x100000000000000000000000000000000int
}

/// The value a [`Wide`] stands for.
pub open spec fn wide_val(w: Wide) -> int {
    w.hi * 0x100000000000000000000000000000000int + w.lo
}

/// The zero value.
pub fn wide_zero() -> (r: Wide)
    ensures
        wide_val(r) == 0,
        r.hi == 0,
{
    Wide { hi: 0, lo: 0 }
}

/// Exact sum of two double-width values.
pub fn wide_add(a: Wide, b: Wide) -> (r: Wide)
    requires
        a.hi + b.hi + 1 < u128::MAX,
    ensures
        wide_val(r) == wide_val(a) + wide_val(b),
        r.hi <= a.hi + b.hi + 1,
{
    if a.lo > u128::MAX - b.lo {
        let lo = a.lo - (u128::MAX - b.lo) - 1;
        let hi = a.hi + b.hi + 1;
        proof {
            assert(lo == a.lo + b.lo - pow2_128());
        }
        Wide { hi, lo }
    } else {
        Wide { hi: a.hi + b.hi, lo: a.lo + b.lo }
    }
}

/// Exact product `a * b` where `a` fits in 64 bits.
pub fn wide_mul(a: u128, b: u128) -> (r: Wide)
    requires
        a < 0x10000000000000000,
    ensures
        wide_val(r) == a * b,
        r.hi <= 0x10000000000000000,
{
    let p64: u128 = 0x10000000000000000;
    let bh: u128 = b / p64;
    let bl: u128 = b % p64;
    proof {
        vstd::arithmetic::div_mod::lemma_fundamental_div_mod(b as int, p64 as int);
        assert(bh < p64) by {
            if bh >= p64 {
                assert(0x10000000000000000 * (bh as int) >= 0x100000000000000000000000000000000int)
                    by (nonlinear_arith)
                    requires
                        bh >= 0x10000000000000000,
                ;
            }
        }
        assert(a * bh < 0x100000000000000000000000000000000int) by (nonlinear_arith)
            requires
                a < 0x10000000000000000,
                0 <= bh < 0x10000000000000000,
        ;
        assert(a * bl < 0x100000000000000000000000000000000int) by (nonlinear_arith)
            requires
                a < 0x10000000000000000,
                0 <= bl < 0x10000000000000000,
        ;
    }
    let ah: u128 = a * bh;
    let al: u128 = a * bl;
    proof {
        // a * b decomposes over the two 64-bit halves of b.
        assert(a * b == ah * 0x10000000000000000 + al) by (nonlinear_arith)
            requires
                b == 0x10000000000000000 * bh + bl,
                ah == a * bh,
                al == a * bl,
        ;
    }
    let hi1: u128 = ah / p64;
    let lo_hi: u128 = ah % p64;
    proof {
        vstd::arithmetic::div_mod::lemma_fundamental_div_mod(ah as int, p64 as int);
        assert(hi1 < p64) by {
            if hi1 >= p64 {
                assert(0x10000000000000000 * (hi1 as int) >= 0x100000000000000000000000000000000int)
                    by (nonlinear_arith)
                    requires
                        hi1 >= 0x10000000000000000,
                ;
            }
        }
        assert(lo_hi * 0x10000000000000000 < 0x100000000000000000000000000000000int)
            by (nonlinear_arith)
            requires
                0 <= lo_hi < 0x10000000000000000,
        ;
    }
    let lo1: u128 = lo_hi * p64;
    proof {
        // ah * 2^64 == hi1 * 2^128 + lo1
        assert(ah * 0x10000000000000000 == hi1 * 0x100000000000000000000000000000000int + lo1)
            by (nonlinear_arith)
            requires
                ah == 0x10000000000000000 * hi1 + lo_hi,
                lo1 == lo_hi * 0x10000000000000000,
        ;
    }
    let w = wide_add(Wide { hi: hi1, lo: lo1 }, Wide { hi: 0, lo: al });
    proof {
        assert(wide_val(w) == a * b);
    }
    w
}

/// A double-width value below `k * 2^128` has a high limb below `k`.
pub proof fn lemma_wide_hi_bound(w: Wide, k: int)
    requires
        wide_val(w) < k * 0x100000000000000000000000000000000int,
    ensures
        w.hi < k,
{
    if w.hi >= k {
        assert(w.hi * 0x100000000000000000000000000000000int >= k
            * 0x100000000000000000000000000000000int) by (nonlinear_arith)
            requires
                w.hi >= k,
        ;
    }
}

/// Exact comparison of two double-width values.
pub fn wide_lt(a: &Wide, b: &Wide) -> (r: bool)
    ensures
        r == (wide_val(*a) < wide_val(*b)),
{
    proof {
        if a.hi < b.hi {
            assert(a.hi * 0x100000000000000000000000000000000int + 0x100000000000000000000000000000000int
                <= b.hi * 0x100000000000000000000000000000000int) by (nonlinear_arith)
                requires
                    a.hi + 1 <= b.hi,
            ;
        }
        if a.hi > b.hi {
            assert(b.hi * 0x100000000000000000000000000000000int + 0x100000000000000000000000000000000int
                <= a.hi * 0x100000000000000000000000000000000int) by (nonlinear_arith)
                requires
                    b.hi + 1 <= a.hi,
            ;
        }
    }
    if a.hi < b.hi {
        true
    } else if a.hi > b.hi {
        false
    } else {
        a.lo < b.lo
    }
}

} // verus!
