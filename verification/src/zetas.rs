//! The twiddle factor table as powers of the root of unity ZETA.
use vstd::prelude::*;
use vstd::arithmetic::div_mod::*;
use vstd::arithmetic::power::*;
use crate::ntt::{canon, high_bit, layer_pow, lemma_ntt_spec_eval, lemma_wsum_cong, lemma_zeta_square, ntt_spec,
    poly_eval, root, zeta};
use crate::params::{Q, ZETA};

verus! {

/// BitRev8(i): the 8 bits of i in reverse order.
pub open spec fn bit_rev8(i: u8) -> u8 {
    ((i & 1) << 7) | ((i & 2) << 5) | ((i & 4) << 3) | ((i & 8) << 1)
        | ((i & 16) >> 1) | ((i & 32) >> 3) | ((i & 64) >> 5) | ((i & 128) >> 7)
}

/// Setting bit k of r, when r is below 2^k, sets bit 7 - k of its reversal.
proof fn lemma_bit_rev8_add(r: u8, k: u8)
    by (bit_vector)
    requires
        k < 8,
        r < (1u8 << k),
    ensures
        r + (1u8 << k) < 256,
        bit_rev8((r + (1u8 << k)) as u8) == bit_rev8(r) + (128u8 >> k),
{
}

/// The powers of two that the shifts give.
proof fn lemma_shift_values(k: u8)
    by (bit_vector)
    requires
        k < 8,
    ensures
        k == 0 ==> (1u8 << k) == 1 && (128u8 >> k) == 128,
        k == 1 ==> (1u8 << k) == 2 && (128u8 >> k) == 64,
        k == 2 ==> (1u8 << k) == 4 && (128u8 >> k) == 32,
        k == 3 ==> (1u8 << k) == 8 && (128u8 >> k) == 16,
        k == 4 ==> (1u8 << k) == 16 && (128u8 >> k) == 8,
        k == 5 ==> (1u8 << k) == 32 && (128u8 >> k) == 4,
        k == 6 ==> (1u8 << k) == 64 && (128u8 >> k) == 2,
        k == 7 ==> (1u8 << k) == 128 && (128u8 >> k) == 1,
        bit_rev8(0) == 0,
{
}

/// log2 of high_bit(i).
spec fn high_bit_log(i: int) -> u8 {
    if i < 2 { 0 } else if i < 4 { 1 } else if i < 8 { 2 } else if i < 16 { 3 }
    else if i < 32 { 4 } else if i < 64 { 5 } else if i < 128 { 6 } else { 7 }
}

/// zeta(i) == zeta(i - h) * zeta(h) (mod q), for h = high_bit(i) < i, at indices in [lo, hi).
spec fn zetas_split(lo: int, hi: int) -> bool
    decreases hi - lo,
{
    if hi - lo <= 0 {
        true
    } else if hi - lo == 1 {
        lo == high_bit(lo) || zeta(lo) == canon(zeta(lo - high_bit(lo)) * zeta(high_bit(lo)))
    } else {
        zetas_split(lo, lo + (hi - lo) / 2) && zetas_split(lo + (hi - lo) / 2, hi)
    }
}

proof fn lemma_zetas_split_all()
    by (nonlinear_arith)
    ensures
        zetas_split(1, 256),
{
    reveal_with_fuel(zetas_split, 10);
}

proof fn lemma_zetas_split_at(lo: int, hi: int, i: int)
    requires
        zetas_split(lo, hi),
        lo <= i < hi,
    ensures
        i == high_bit(i) || zeta(i) == canon(zeta(i - high_bit(i)) * zeta(high_bit(i))),
    decreases hi - lo,
{
    if hi - lo > 1 {
        let mid = lo + (hi - lo) / 2;
        if i < mid {
            lemma_zetas_split_at(lo, mid, i);
        } else {
            lemma_zetas_split_at(mid, hi, i);
        }
    }
}

/// Products of powers modulo q.
proof fn lemma_pow_mul_canon(x: int, a: nat, b: nat, u: int, v: int)
    requires
        u == canon(pow(x, a)),
        v == canon(pow(x, b)),
    ensures
        canon(u * v) == canon(pow(x, a + b)),
{
    lemma_pow_adds(x, a, b);
    lemma_mul_mod_noop(pow(x, a), pow(x, b), Q as int);
}

/// The power-of-two entries: zeta(2^k) == ZETA^(2^(7-k)) (mod q).
proof fn lemma_zeta_power_of_two(k: u8)
    requires
        k < 8,
    ensures
        zeta((1u8 << k) as int) == canon(pow(ZETA as int, (128u8 >> k) as nat)),
    decreases 8 - k,
{
    lemma_shift_values(k);
    if k == 7 {
        lemma_pow1(1753);
        lemma_small_mod(1753, Q as nat);
        assert(zeta(128) == 1753);
    } else {
        lemma_zeta_power_of_two((k + 1) as u8);
        lemma_shift_values((k + 1) as u8);
        let h = (1u8 << k) as int;
        let h2 = (1u8 << ((k + 1) as u8)) as int;
        let e = (128u8 >> ((k + 1) as u8)) as nat;
        assert(h2 == 2 * h && (128u8 >> k) as nat == 2 * e);
        assert(layer_pow(k as int + 1) == h2 && layer_pow(k as int) == h);
        lemma_zeta_square(k as int + 1, 0);
        assert(root(k as int + 1, 0) == zeta(h));
        lemma_pow_mul_canon(ZETA as int, e, e, zeta(h2), zeta(h2));
        assert(e + e == 2 * e);
    }
}

/// The twiddle factor table holds ZETA^BitRev8(i) mod q: zeta(i) == ZETA^BitRev8(i) (mod q)
/// for 1 <= i < 256.
pub proof fn lemma_zetas_are_powers(i: u8)
    requires
        1 <= i,
    ensures
        zeta(i as int) == canon(pow(ZETA as int, bit_rev8(i) as nat)),
    decreases i,
{
    let k = high_bit_log(i as int);
    lemma_shift_values(k);
    let h = (1u8 << k);
    assert(h as int == high_bit(i as int));
    let r = (i - h) as u8;
    assert(r < h);
    lemma_bit_rev8_add(r, k);
    assert((r + h) as u8 == i);
    lemma_zeta_power_of_two(k);
    if r == 0 {
        assert(bit_rev8(i) == 128u8 >> k);
    } else {
        lemma_zetas_split_all();
        lemma_zetas_split_at(1, 256, i as int);
        lemma_zetas_are_powers(r);
        lemma_pow_mul_canon(ZETA as int, bit_rev8(r) as nat, (128u8 >> k) as nat, zeta(r as int), zeta(h as int));
        assert(bit_rev8(i) as nat == bit_rev8(r) as nat + (128u8 >> k) as nat);
    }
}

/// ZETA is a 512-th root of unity modulo q with ZETA^256 == -1 (mod q).
pub proof fn lemma_zeta_order()
    ensures
        canon(pow(ZETA as int, 256)) == Q - 1,
        canon(pow(ZETA as int, 512)) == 1,
{
    lemma_zetas_are_powers(1);
    assert(bit_rev8(1) == 128) by (bit_vector);
    lemma_zeta_square(0, 0);
    assert(layer_pow(0) == 1 && root(0, 0) == Q - 1);
    lemma_pow_mul_canon(ZETA as int, 128, 128, zeta(1), zeta(1));
    let m = Q - 1;
    lemma_small_mod(m as nat, Q as nat);
    lemma_pow_mul_canon(ZETA as int, 256, 256, m, m);
    assert(m * m == 1 + (Q as int) * (Q - 2)) by (nonlinear_arith) requires m == Q - 1;
    lemma_mod_multiples_vanish(Q - 2, 1, Q as int);
    lemma_small_mod(1, Q as nat);
}

/// The reversals of 2j, 2j + 1 and 128 + j, for j < 128.
proof fn lemma_bit_rev8_root(j: u8)
    by (bit_vector)
    requires
        j < 128,
    ensures
        bit_rev8((128 + j) as u8) == 2 * bit_rev8((2 * j) as u8) + 1,
        bit_rev8((2 * j + 1) as u8) == bit_rev8((2 * j) as u8) + 128,
{
}

/// The roots at which the NTT evaluates are the odd powers of ZETA:
/// root(8, c) == ZETA^(2 BitRev8(c) + 1) (mod q).
pub proof fn lemma_root_is_power(c: u8)
    ensures
        canon(root(8, c as int)) == canon(pow(ZETA as int, (2 * bit_rev8(c) + 1) as nat)),
{
    let j = c / 2;
    assert(c as int / 2 == j as int && layer_pow(7) == 128);
    lemma_bit_rev8_root(j);
    lemma_zetas_are_powers((128 + j) as u8);
    let b = bit_rev8((128 + j) as u8) as nat;
    let zb = canon(pow(ZETA as int, b));
    assert(zeta(128 + j as int) == zb);
    lemma_mod_mod(pow(ZETA as int, b), Q as int, 1);
    if c % 2 == 0 {
        assert(c == 2 * j);
        assert(root(8, c as int) == zeta(128 + j as int));
        assert((2 * bit_rev8(c) + 1) as nat == b);
    } else {
        assert(c == 2 * j + 1);
        assert(root(8, c as int) == Q - zeta(128 + j as int));
        assert((2 * bit_rev8(c) + 1) as nat == b + 256);
        lemma_zeta_order();
        let m = Q - 1;
        lemma_pow_mul_canon(ZETA as int, b, 256, zb, m);
        assert(zb * m == Q * zb - zb) by (nonlinear_arith) requires m == Q - 1;
        lemma_mod_multiples_vanish(zb - 1, Q - zb, Q as int);
        assert(Q * zb - zb == Q * (zb - 1) + (Q - zb)) by (nonlinear_arith);
    }
}

/// The NTT evaluates a polynomial at the odd powers of ZETA: coefficient c of ntt(w) is
/// w(ZETA^(2 BitRev8(c) + 1)) mod q.
pub proof fn lemma_ntt_evaluates_at_powers(w: Seq<int>, c: u8)
    requires
        w.len() == 256,
    ensures
        ntt_spec(w)[c as int] == canon(poly_eval(w, pow(ZETA as int, (2 * bit_rev8(c) + 1) as nat))),
{
    lemma_ntt_spec_eval(w, c as int);
    lemma_root_is_power(c);
    lemma_wsum_cong(w, 0, 1, root(8, c as int), pow(ZETA as int, (2 * bit_rev8(c) + 1) as nat), 256);
}

/// Powers of -1 modulo q.
proof fn lemma_pow_minus_one(m: nat)
    ensures
        canon(pow(Q - 1, m)) == (if m % 2 == 1 { Q - 1 } else { 1 }),
    decreases m,
{
    if m == 0 {
        lemma_pow0(Q - 1);
        lemma_small_mod(1, Q as nat);
    } else {
        lemma_pow_minus_one((m - 1) as nat);
        lemma_pow_adds(Q - 1, 1, (m - 1) as nat);
        lemma_pow1(Q - 1);
        let p = pow(Q - 1, (m - 1) as nat);
        lemma_mul_mod_noop_right(Q - 1, p, Q as int);
        if m % 2 == 1 {
            lemma_small_mod((Q - 1) as nat, Q as nat);
        } else {
            assert((Q - 1) * (Q - 1) == 1 + (Q as int) * (Q - 2)) by (nonlinear_arith);
            lemma_mod_multiples_vanish(Q - 2, 1, Q as int);
            lemma_small_mod(1, Q as nat);
        }
    }
}

/// k as 2^a times an odd number.
proof fn lemma_two_adic(k: nat) -> (am: (nat, nat))
    requires
        k > 0,
    ensures
        k == pow(2, am.0) * am.1,
        am.1 % 2 == 1,
    decreases k,
{
    if k % 2 == 1 {
        lemma_pow0(2);
        (0, k)
    } else {
        let (a, m) = lemma_two_adic(k / 2);
        lemma_pow_adds(2, 1, a);
        lemma_pow1(2);
        assert(k == 2 * (pow(2, a) * m));
        assert(2 * (pow(2, a) * m) == (2 * pow(2, a)) * m) by (nonlinear_arith);
        (a + 1, m)
    }
}

/// ZETA is a primitive 512-th root of unity modulo q: ZETA^k != 1 (mod q) for 0 < k < 512.
pub proof fn lemma_zeta_primitive(k: nat)
    requires
        0 < k < 512,
    ensures
        canon(pow(ZETA as int, k)) != 1,
{
    if canon(pow(ZETA as int, k)) == 1 {
        let (a, m) = lemma_two_adic(k);
        assert(a <= 8) by {
            if a > 8 {
                lemma_pow_increases(2, 9, a);
                reveal_with_fuel(pow, 10);
                assert(pow(2, 9) == 512);
                assert(pow(2, a) * m >= pow(2, a)) by (nonlinear_arith)
                    requires m % 2 == 1, pow(2, a) >= 0, m >= 0;
            }
        }
        let e = (8 - a) as nat;
        lemma_pow_adds(2, a, e);
        reveal_with_fuel(pow, 10);
        assert(pow(2, 8) == 256);
        assert(pow(2, a) * pow(2, e) == 256);
        assert(k * pow(2, e) == 256 * m) by (nonlinear_arith)
            requires k == pow(2, a) * m, pow(2, a) * pow(2, e) == 256;
        lemma_pow_positive(2, e);
        let ke = (k * pow(2, e)) as nat;
        // ZETA^(k 2^e) == 1
        lemma_pow_multiplies(ZETA as int, k, pow(2, e) as nat);
        lemma_pow_mod_noop(pow(ZETA as int, k), pow(2, e) as nat, Q as int);
        lemma1_pow(pow(2, e) as nat);
        lemma_small_mod(1, Q as nat);
        // ZETA^(256 m) == (-1)^m == -1
        lemma_pow_multiplies(ZETA as int, 256, m);
        lemma_zeta_order();
        lemma_pow_mod_noop(pow(ZETA as int, 256), m, Q as int);
        lemma_pow_minus_one(m);
        assert(ke == 256 * m);
    }
}

} // verus!
