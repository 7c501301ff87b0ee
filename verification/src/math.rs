//! Exact widening arithmetic for the settlement formula.
//!
//! Payouts divide a product of two pool amounts by the winning pool.  The
//! product can exceed `u128`, so `mul_div` computes `floor(a * b / d)` without
//! ever forming the full product: it runs a binary long division over the bits
//! of `a`, keeping a partial quotient and a remainder that both stay in range.

use vstd::prelude::*;

verus! {

use vstd::arithmetic::div_mod::{
    lemma_div_denominator,
    lemma_div_is_ordered,
    lemma_div_is_ordered_by_denominator,
    lemma_div_multiples_vanish,
    lemma_fundamental_div_mod,
    lemma_fundamental_div_mod_converse,
};
use vstd::arithmetic::mul::{lemma_mul_inequality, lemma_mul_is_commutative};
use vstd::arithmetic::power2::{
    lemma2_to64,
    lemma2_to64_rest,
    lemma_pow2_adds,
    lemma_pow2_pos,
    lemma_pow2_unfold,
    pow2,
};

/// Largest value `mul_div` accepts for its numerator factors: half the `u128`
/// range, so that a payout (a stake plus a quotient bounded by the total pool)
/// still fits in `u128`.
pub const POOL_LIMIT: u128 = 0x7fff_ffff_ffff_ffff_ffff_ffff_ffff_ffff;

/// The leading `i` bits of `a`, read as a number.
pub open spec fn bit_prefix(a: int, i: nat) -> int
    recommends
        i <= 128,
{
    a / pow2((128 - i) as nat) as int
}

/// A quotient `floor(a * b / d)` never exceeds `a` when `b <= d`.
pub proof fn lemma_mul_div_le(a: int, b: int, d: int)
    requires
        0 <= a,
        0 <= b <= d,
        0 < d,
    ensures
        (a * b) / d <= a,
{
    lemma_mul_inequality(b, d, a);
    lemma_mul_is_commutative(a, b);
    lemma_mul_is_commutative(a, d);
    lemma_div_is_ordered(a * b, d * a, d);
    lemma_div_multiples_vanish(a, d);
}

proof fn lemma_div_by_one(a: int)
    requires
        0 <= a,
    ensures
        a / 1 == a,
{
    lemma_div_multiples_vanish(a, 1);
}

/// `floor(a * b / d)`, computed exactly even where `a * b` exceeds `u128`.
pub fn mul_div(a: u128, b: u128, d: u128) -> (q: u128)
    requires
        0 < d <= a,
        b <= d,
        a <= POOL_LIMIT,
    ensures
        q == (a as int * b as int) / (d as int),
        q <= a,
{
    let mut q: u128 = 0;
    let mut r: u128 = 0;
    let mut pow: u128 = 0x8000_0000_0000_0000_0000_0000_0000_0000;
    let mut i: usize = 0;
    proof {
        lemma2_to64();
        lemma2_to64_rest();
        lemma_pow2_adds(64, 63);
        assert(pow as int == pow2(127));
        lemma_pow2_unfold(128);
        assert(a < pow2(128));
        assert(a as int / pow2(128) as int == 0) by {
            vstd::arithmetic::div_mod::lemma_basic_div(a as int, pow2(128) as int);
        }
    }
    while i < 128
        invariant
            i <= 128,
            0 < d <= a,
            b <= d,
            a <= POOL_LIMIT,
            i < 128 ==> pow as int == pow2((127 - i) as nat) as int,
            r < d,
            q <= a,
            bit_prefix(a as int, i as nat) * (b as int) == (q as int) * (d as int) + (r as int),
        decreases 128 - i,
    {
        let ghost prefix_old = bit_prefix(a as int, i as nat);
        proof {
            lemma_pow2_pos((127 - i) as nat);
        }
        let p_new: u128 = a / pow;
        let bit: u128 = p_new % 2;
        proof {
            // The prefix one bit longer is twice the old prefix plus the new bit.
            lemma_pow2_unfold((128 - i) as nat);
            lemma_div_denominator(a as int, pow2((127 - i) as nat) as int, 2);
            assert(prefix_old == p_new as int / 2);
            lemma_fundamental_div_mod(p_new as int, 2);
            assert(p_new as int == 2 * prefix_old + bit as int);
            // The new prefix is at most a.
            lemma_div_is_ordered_by_denominator(a as int, 1, pow as int);
            lemma_div_by_one(a as int);
            assert(p_new <= a);
        }
        let ghost target = p_new as int * b as int;
        proof {
            assert(target == 2 * (q as int * d as int + r as int) + bit as int * b as int)
                by (nonlinear_arith)
                requires
                    prefix_old * (b as int) == (q as int) * (d as int) + (r as int),
                    p_new as int == 2 * prefix_old + bit as int,
                    target == p_new as int * b as int,
            ;
            // floor(target / d) is at most p_new, hence at most a.
            lemma_mul_div_le(p_new as int, b as int, d as int);
        }
        let mut nq: u128 = q * 2;
        let mut nr: u128 = r * 2;
        let ghost tail: int = if bit == 1 { b as int } else { 0 };
        proof {
            assert(tail == bit as int * b as int) by (nonlinear_arith)
                requires
                    bit as int == 0 || bit as int == 1,
                    tail == (if bit as int == 1 { b as int } else { 0 }),
            ;
            assert(target == nq as int * d as int + nr as int + tail)
                by (nonlinear_arith)
                requires
                    target == 2 * (q as int * d as int + r as int) + bit as int * b as int,
                    tail == bit as int * b as int,
                    nq as int == 2 * q as int,
                    nr as int == 2 * r as int,
            ;
        }
        if nr >= d {
            proof {
                lemma_quotient_step(target, nq as int, nr as int, tail, d as int, p_new as int, a as int, b as int);
            }
            let ghost oq = nq as int;
            let ghost onr = nr as int;
            nr = nr - d;
            nq = nq + 1;
            proof {
                assert(nq as int * d as int + nr as int == oq * d as int + onr)
                    by (nonlinear_arith)
                    requires
                        nq as int == oq + 1,
                        nr as int == onr - d as int,
                ;
                assert(target == nq as int * d as int + nr as int + tail);
            }
        }
        if bit == 1 {
            nr = nr + b;
            proof {
                assert(target == nq as int * d as int + nr as int);
            }
        }
        proof {
            assert(target == nq as int * d as int + nr as int);
        }
        if nr >= d {
            proof {
                lemma_quotient_step(target, nq as int, nr as int, 0, d as int, p_new as int, a as int, b as int);
            }
            let ghost oq = nq as int;
            let ghost onr = nr as int;
            nr = nr - d;
            nq = nq + 1;
            proof {
                assert(nq as int * d as int + nr as int == oq * d as int + onr)
                    by (nonlinear_arith)
                    requires
                        nq as int == oq + 1,
                        nr as int == onr - d as int,
                ;
                assert(target == nq as int * d as int + nr as int);
            }
        }
        proof {
            assert(target == nq as int * d as int + nr as int);
            // The partial quotient stays at most a.
            lemma_fundamental_div_mod_converse(target, d as int, nq as int, nr as int);
            lemma_mul_div_le(p_new as int, b as int, d as int);
            assert(nq <= a);
            // Halving the power of two steps one bit to the right.
            if i < 127 {
                lemma_pow2_unfold((127 - i) as nat);
                lemma_div_multiples_vanish(pow2((126 - i) as nat) as int, 2);
                assert(pow as int / 2 == pow2((126 - i) as nat) as int);
            }
        }
        q = nq;
        r = nr;
        pow = pow / 2;
        i = i + 1;
    }
    proof {
        lemma2_to64();
        assert(bit_prefix(a as int, 128) == a as int / 1);
        lemma_div_by_one(a as int);
        lemma_fundamental_div_mod_converse(a as int * b as int, d as int, q as int, r as int);
    }
    q
}

/// Whenever the running remainder reaches `d`, the true quotient exceeds the
/// partial quotient, so incrementing the partial quotient stays below `a`.
proof fn lemma_quotient_step(target: int, nq: int, nr: int, tail: int, d: int, p: int, a: int, b: int)
    requires
        0 < d,
        0 <= b <= d,
        0 <= p <= a,
        0 <= nq,
        d <= nr,
        0 <= tail,
        target == p * b,
        target == nq * d + nr + tail,
    ensures
        nq + 1 <= a,
{
    assert((nq + 1) * d <= target) by (nonlinear_arith)
        requires
            target == nq * d + nr + tail,
            d <= nr,
            0 <= tail,
            0 < d,
            0 <= nq,
    ;
    lemma_div_is_ordered((nq + 1) * d, target, d);
    lemma_div_multiples_vanish(nq + 1, d);
    lemma_mul_is_commutative(nq + 1, d);
    lemma_mul_div_le(p, b, d);
    assert(target / d <= p);
}

} // verus!
