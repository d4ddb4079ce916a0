//! Key arithmetic for the van Emde Boas tree.
//!
//! A node over a universe of `w` bits splits every key into a high half (the
//! cluster index) and a low half (the position inside that cluster), using
//! `cb = w / 2` cluster bits.  The spec-level functions below state the split
//! in terms of division and remainder by `pow2(cb)`; the executable functions
//! compute it with shifts and masks and are proved equal to the spec.

use vstd::prelude::*;
use vstd::arithmetic::power2::{
    lemma2_to64, lemma_pow2_adds, lemma_pow2_pos, lemma_pow2_strictly_increases, pow2,
};
use vstd::arithmetic::div_mod::{
    lemma_div_nonincreasing, lemma_fundamental_div_mod, lemma_fundamental_div_mod_converse,
    lemma_mod_bound, lemma_multiply_divide_lt,
};
use vstd::bits::{
    lemma_u32_low_bits_mask_is_mod, lemma_u32_pow2_no_overflow, lemma_u32_shl_is_mul,
    lemma_u32_shr_is_div,
};

verus! {

/// Bit width of the full key universe: the tree at its root covers all of `u32`.
pub const UNIVERSE_BITS: u32 = 32;

/// The high half of a key: the index of the cluster that holds it.
pub open spec fn high_of(k: u32, cb: nat) -> u32 {
    (k as nat / pow2(cb)) as u32
}

/// The low half of a key: its position inside its cluster.
pub open spec fn low_of(k: u32, cb: nat) -> u32 {
    (k as nat % pow2(cb)) as u32
}

/// Recombining a cluster index and a position into a key of the full universe.
pub open spec fn combine_of(h: u32, l: u32, cb: nat) -> u32 {
    (h as nat * pow2(cb) + l as nat) as u32
}

/// Splitting a key of a `w`-bit universe yields halves within their own
/// universes, and recombining them gives the key back.
pub proof fn lemma_split_parts(k: u32, cb: nat, w: nat)
    requires
        cb <= w <= 32,
        (k as nat) < pow2(w),
    ensures
        high_of(k, cb) as nat == k as nat / pow2(cb),
        low_of(k, cb) as nat == k as nat % pow2(cb),
        (high_of(k, cb) as nat) < pow2((w - cb) as nat),
        (low_of(k, cb) as nat) < pow2(cb),
        combine_of(high_of(k, cb), low_of(k, cb), cb) == k,
{
    lemma_pow2_pos(cb);
    lemma_pow2_pos((w - cb) as nat);
    lemma_pow2_adds(cb, (w - cb) as nat);
    lemma_div_nonincreasing(k as int, pow2(cb) as int);
    lemma_mod_bound(k as int, pow2(cb) as int);
    lemma_multiply_divide_lt(k as int, pow2(cb) as int, pow2((w - cb) as nat) as int);
    lemma_fundamental_div_mod(k as int, pow2(cb) as int);
    assert((k as nat / pow2(cb)) * pow2(cb) == pow2(cb) * (k as nat / pow2(cb))) by (nonlinear_arith);
}

/// Recombining in-range halves yields a key of the `w`-bit universe whose
/// halves are the ones recombined.
pub proof fn lemma_combine_parts(h: u32, l: u32, cb: nat, w: nat)
    requires
        cb <= w <= 32,
        (h as nat) < pow2((w - cb) as nat),
        (l as nat) < pow2(cb),
    ensures
        combine_of(h, l, cb) as nat == h as nat * pow2(cb) + l as nat,
        (combine_of(h, l, cb) as nat) < pow2(w),
        high_of(combine_of(h, l, cb), cb) == h,
        low_of(combine_of(h, l, cb), cb) == l,
{
    lemma_pow2_pos(cb);
    lemma_pow2_pos((w - cb) as nat);
    lemma_pow2_adds(cb, (w - cb) as nat);
    lemma2_to64();
    if w < 32 {
        lemma_pow2_strictly_increases(w, 32);
    }
    assert((h as nat * pow2(cb) + l as nat) < pow2(cb) * pow2((w - cb) as nat)) by (nonlinear_arith)
        requires
            (h as nat) < pow2((w - cb) as nat),
            (l as nat) < pow2(cb),
            pow2(cb) >= 1,
    ;
    lemma_fundamental_div_mod_converse(
        (h as nat * pow2(cb) + l as nat) as int,
        pow2(cb) as int,
        h as int,
        l as int,
    );
}

/// The split is order-preserving: keys compare as their `(high, low)` pairs
/// compare lexicographically.
pub proof fn lemma_combine_order(h1: u32, l1: u32, h2: u32, l2: u32, cb: nat, w: nat)
    requires
        cb <= w <= 32,
        (h1 as nat) < pow2((w - cb) as nat),
        (l1 as nat) < pow2(cb),
        (h2 as nat) < pow2((w - cb) as nat),
        (l2 as nat) < pow2(cb),
    ensures
        combine_of(h1, l1, cb) < combine_of(h2, l2, cb) <==> (h1 < h2 || (h1 == h2 && l1 < l2)),
{
    lemma_combine_parts(h1, l1, cb, w);
    lemma_combine_parts(h2, l2, cb, w);
    assert((h1 < h2 || (h1 == h2 && l1 < l2)) ==> (h1 as nat * pow2(cb) + l1 as nat) < (h2 as nat
        * pow2(cb) + l2 as nat)) by (nonlinear_arith)
        requires
            (l1 as nat) < pow2(cb),
            (l2 as nat) < pow2(cb),
    ;
    assert((h1 as nat * pow2(cb) + l1 as nat) < (h2 as nat * pow2(cb) + l2 as nat) ==> (h1 < h2 || (
    h1 == h2 && l1 < l2))) by (nonlinear_arith)
        requires
            (l1 as nat) < pow2(cb),
            (l2 as nat) < pow2(cb),
    ;
}

/// A key lies inside a `w`-bit universe exactly when its high half lies
/// inside the universe of cluster indices.
pub proof fn lemma_high_range(k: u32, cb: nat, w: nat)
    requires
        cb <= w <= 32,
    ensures
        (k as nat) < pow2(w) <==> (high_of(k, cb) as nat) < pow2((w - cb) as nat),
{
    lemma_pow2_pos(cb);
    lemma_pow2_pos((w - cb) as nat);
    lemma_pow2_adds(cb, (w - cb) as nat);
    lemma_div_nonincreasing(k as int, pow2(cb) as int);
    if (k as nat) < pow2(w) {
        lemma_multiply_divide_lt(k as int, pow2(cb) as int, pow2((w - cb) as nat) as int);
    }
    if (k as nat / pow2(cb)) < pow2((w - cb) as nat) {
        lemma_fundamental_div_mod(k as int, pow2(cb) as int);
        lemma_mod_bound(k as int, pow2(cb) as int);
        assert((k as nat) < pow2(cb) * pow2((w - cb) as nat)) by (nonlinear_arith)
            requires
                k as int == pow2(cb) * (k as int / pow2(cb) as int) + (k as int % pow2(cb) as int),
                (k as int % pow2(cb) as int) < pow2(cb),
                (k as nat / pow2(cb)) < pow2((w - cb) as nat),
                pow2(cb) >= 1,
        ;
    }
}

/// Computes the cluster index of a key: `k >> cb`.
pub fn key_high(k: u32, cb: u32) -> (h: u32)
    requires
        cb < 32,
    ensures
        h == high_of(k, cb as nat),
{
    proof {
        lemma_u32_shr_is_div(k, cb);
    }
    k >> cb
}

/// Computes the position of a key inside its cluster: `k` masked to its low `cb` bits.
pub fn key_low(k: u32, cb: u32) -> (l: u32)
    requires
        cb < 32,
    ensures
        l == low_of(k, cb as nat),
{
    proof {
        lemma_u32_pow2_no_overflow(cb as nat);
        lemma_u32_shl_is_mul(1u32, cb);
        lemma_u32_low_bits_mask_is_mod(k, cb as nat);
    }
    k & ((1u32 << cb) - 1)
}

/// Recombines a cluster index and a position into a key: `(h << cb) + l`.
pub fn key_combine(h: u32, l: u32, cb: u32) -> (k: u32)
    requires
        cb < 32,
        (h as nat * pow2(cb as nat) + l as nat) < pow2(32),
    ensures
        k == combine_of(h, l, cb as nat),
{
    proof {
        lemma_u32_pow2_no_overflow(cb as nat);
        lemma2_to64();
        lemma_u32_shl_is_mul(h, cb);
    }
    (h << cb) + l
}

} // verus!
