//! Finality horizon: how far behind the tip a block must lie before its
//! history may be pruned.

use vstd::prelude::*;
use crate::genesis::{ActiveSlotsCoeff, ByronGenesis, ShelleyGenesis};

verus! {

/// Logical chain time.
pub type BlockSlot = u64;

/// Smallest integer that is at least `a / b`, for `b > 0`.
pub open spec fn ceil_div(a: int, b: int) -> int {
    (a + b - 1) / b
}

/// Width of the volatility window in slots: `ceil(3 * k / coeff)`.
pub open spec fn security_window(k: u64, coeff: ActiveSlotsCoeff) -> int {
    ceil_div(3 * k * coeff.denom, coeff.numer as int)
}

/// The slot at or before which blocks are immutable when the chain tip is at
/// `tip`: the tip less the window, and zero where the window reaches past
/// the start of the chain.
pub open spec fn immutable_boundary(tip: BlockSlot, k: u64, coeff: ActiveSlotsCoeff) -> int {
    if tip >= security_window(k, coeff) {
        tip - security_window(k, coeff)
    } else {
        0
    }
}

proof fn lemma_ceil_div(n: int, d: int, q: int, r: int)
    requires
        d > 0,
        0 <= r < d,
        n == q * d + r,
    ensures
        ceil_div(n, d) == if r > 0 { q + 1 } else { q },
{
    if r > 0 {
        assert(n + d - 1 == (q + 1) * d + (r - 1)) by (nonlinear_arith)
            requires n == q * d + r;
        vstd::arithmetic::div_mod::lemma_fundamental_div_mod_converse(n + d - 1, d, q + 1, r - 1);
    } else {
        assert(n + d - 1 == q * d + (d - 1)) by (nonlinear_arith)
            requires n == q * d + r, r == 0;
        vstd::arithmetic::div_mod::lemma_fundamental_div_mod_converse(n + d - 1, d, q, d - 1);
    }
}

/// Computes the immutable boundary for a chain whose tip is at `tip`, from
/// the security parameter of the Byron genesis and the active-slot
/// coefficient of the Shelley genesis. The coefficient must be present and
/// lie in (0, 1]: without it the boundary is not defined.
pub fn last_immutable_block(tip: BlockSlot, byron: &ByronGenesis, shelley: &ShelleyGenesis) -> (boundary:
    BlockSlot)
    requires
        shelley.defines_finality(),
    ensures
        boundary == immutable_boundary(
            tip,
            byron.protocol_consts.k,
            shelley.active_slots_coeff->Some_0,
        ),
        boundary <= tip,
{
    let coeff: ActiveSlotsCoeff = shelley.active_slots_coeff.unwrap();
    let k: u128 = byron.protocol_consts.k as u128;
    let denom: u128 = coeff.denom as u128;
    let numer: u128 = coeff.numer as u128;
    assert(k * denom <= 0xffff_ffff_ffff_ffff * 0xffff_ffff_ffff_ffff) by (nonlinear_arith)
        requires 0 <= k <= 0xffff_ffff_ffff_ffff, 0 <= denom <= 0xffff_ffff_ffff_ffff;
    let scaled: u128 = k * denom;
    match scaled.checked_mul(3) {
        None => {
            proof {
                let n: int = 3 * scaled;
                assert(n > u128::MAX);
                let q: int = n / (numer as int);
                let r: int = n % (numer as int);
                vstd::arithmetic::div_mod::lemma_fundamental_div_mod(n, numer as int);
                vstd::arithmetic::div_mod::lemma_mod_bound(n, numer as int);
                assert(n == numer * q + r);
                assert(numer * q == q * numer) by (nonlinear_arith);
                lemma_ceil_div(n, numer as int, q, r);
                assert(q >= 0x1_0000_0000_0000_0000) by (nonlinear_arith)
                    requires
                        n == numer * q + r,
                        0 <= r < numer,
                        numer <= 0xffff_ffff_ffff_ffff,
                        n > 0xffff_ffff_ffff_ffff_ffff_ffff_ffff_ffff,
                ;
                assert(3 * byron.protocol_consts.k * coeff.denom == n) by (nonlinear_arith)
                    requires n == 3 * (byron.protocol_consts.k * coeff.denom);
            }
            0
        },
        Some(n) => {
            let q: u128 = n / numer;
            let r: u128 = n % numer;
            proof {
                vstd::arithmetic::div_mod::lemma_fundamental_div_mod(n as int, numer as int);
                assert(numer * q == q * numer) by (nonlinear_arith);
                lemma_ceil_div(n as int, numer as int, q as int, r as int);
                assert(3 * byron.protocol_consts.k * coeff.denom == n) by (nonlinear_arith)
                    requires n == 3 * (byron.protocol_consts.k * coeff.denom);
            }
            if q >= tip as u128 {
                0
            } else {
                let window: u128 = if r > 0 { q + 1 } else { q };
                (tip as u128 - window) as u64
            }
        },
    }
}

} // verus!
