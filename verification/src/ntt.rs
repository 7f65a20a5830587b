//! Arithmetic in Z_q and the number-theoretic transform of ML-DSA.
use vstd::prelude::*;
use vstd::arithmetic::div_mod::*;
use vstd::arithmetic::power::*;
use vstd::arithmetic::mul::*;
use crate::params::{N, Q};

verus! {

/// One folding step of the reduction: y = h * 2^23 + l becomes h * (2^13 - 1) + l,
/// which is congruent to y modulo q because 2^23 = 2^13 - 1 (mod q).
pub open spec fn fold23(y: int) -> int {
    (y / 0x80_0000) * 8191 + y % 0x80_0000
}

/// The canonical representative of x in [0, q).
pub open spec fn canon(x: int) -> int {
    x % (Q as int)
}

proof fn lemma_shr23(y: i64)
    ensures
        (y >> 23u64) as int == (y as int) / 0x80_0000,
        (y & 0x7F_FFFFi64) as int == (y as int) % 0x80_0000,
{
    assert((y >> 23u64) as int * 0x80_0000 + (y & 0x7F_FFFFi64) as int == y as int
        && 0 <= (y & 0x7F_FFFFi64) < 0x80_0000) by (bit_vector);
    lemma_fundamental_div_mod_converse(y as int, 0x80_0000, (y >> 23u64) as int, (y & 0x7F_FFFFi64) as int);
}

/// fold23 changes its argument by a multiple of q, and bounds of the argument carry over.
proof fn lemma_fold23(y: int)
    ensures
        fold23(y) == y - (Q as int) * (y / 0x80_0000),
        y >= 0 ==> 0 <= fold23(y) <= y / 1024 + 0x7F_FFFF,
        y < 0 ==> y / 1024 - 1 <= fold23(y) < 0x80_0000,
        -(Q as int) <= y < 0 ==> fold23(y) == y + Q,
{
    lemma_fundamental_div_mod(y, 0x80_0000);
    let h = y / 0x80_0000;
    let l = y % 0x80_0000;
    assert(0 <= l < 0x80_0000);
    if y >= 0 {
        assert(h >= 0);
        lemma_fundamental_div_mod(y, 1024);
        assert(h * 8191 <= y / 1024) by {
            lemma_fundamental_div_mod(y, 1024);
        }
    } else {
        assert(h < 0);
        lemma_fundamental_div_mod(y, 1024);
    }
    if -(Q as int) <= y < 0 {
        assert(h == -1);
    }
}

/// Bounds along the four folding steps of `mod_q`.
proof fn lemma_fold_chain(x: int)
    requires
        -0x1000_0000_0000_0000 <= x <= 0x1000_0000_0000_0000,
    ensures
        -0x4_0000_0000_0001 <= fold23(x) <= 0x4_0000_0080_0000,
        -0x100_0000_0002 <= fold23(fold23(x)) <= 0x100_0100_0000,
        -0x4000_0003 <= fold23(fold23(fold23(x))) <= 0x4100_0000,
        -0x10_0002 <= fold23(fold23(fold23(fold23(x)))) <= 0x90_3FFF,
{
    let t1 = fold23(x);
    let t2 = fold23(t1);
    let t3 = fold23(t2);
    lemma_fold23(x);
    lemma_fold23(t1);
    lemma_fold23(t2);
    lemma_fold23(t3);
}

/// fold23 subtracts a multiple of q.
proof fn lemma_fold23_sub(y: int)
    ensures
        fold23(y) == y - 8380417 * (y / 0x80_0000),
{
    lemma_fundamental_div_mod(y, 0x80_0000);
}

/// Four folding steps keep the residue modulo q.
proof fn lemma_fold4_cong(x: int)
    ensures
        canon(fold23(fold23(fold23(fold23(x))))) == canon(x),
{
    let t1 = fold23(x);
    let t2 = fold23(t1);
    let t3 = fold23(t2);
    let t4 = fold23(t3);
    lemma_fold23_sub(x);
    lemma_fold23_sub(t1);
    lemma_fold23_sub(t2);
    lemma_fold23_sub(t3);
    let k: int = x / 0x80_0000 + t1 / 0x80_0000 + t2 / 0x80_0000 + t3 / 0x80_0000;
    assert(x == 8380417 * k + t4);
    lemma_mod_multiples_vanish(k, t4, 8380417);
}

/// Absolute value.
pub open spec fn abs(x: int) -> int {
    if x < 0 { -x } else { x }
}

proof fn lemma_sign_mask(r: i32)
    ensures
        (r >> 31u32) & 8380417i32 == (if r < 0 { 8380417i32 } else { 0i32 }),
{
    assert((r >> 31u32) & 8380417i32 == (if r < 0 { 8380417i32 } else { 0i32 })) by (bit_vector);
}

/// One folding step: (y >> 23) * (2^13 - 1) + (y mod 2^23).
fn fold_step(y: i64) -> (t: i64)
    requires
        -0x1000_0000_0000_0000 <= y <= 0x1000_0000_0000_0000,
    ensures
        t == fold23(y as int),
{
    proof { lemma_shr23(y); }
    let high = y >> 23;
    let low = y & 0x7F_FFFF;
    high * 8191 + low
}

/// Reduces x into [0, q), the canonical representative of x modulo q.
///
/// The bits above 2^23 are folded in with 2^23 = 2^13 - 1 (mod q). Three folds bring
/// x to about 30 bits, which can still be negative (x = -2^47 gives -98290) or above
/// 2q; a fourth fold brings it into ]-q, 2q[, and two conditional corrections by q
/// (one for values of q or more, one for negative values) make it canonical.
pub fn mod_q(x: i64) -> (r: i32)
    requires
        -0x1000_0000_0000_0000 <= x <= 0x1000_0000_0000_0000,
    ensures
        r as int == canon(x as int),
{
    proof { lemma_fold_chain(x as int); lemma_fold4_cong(x as int); }
    let t1 = fold_step(x);
    let t2 = fold_step(t1);
    let t3 = fold_step(t2);
    let t4 = fold_step(t3);

    let r0 = t4 as i32 - Q;
    proof { lemma_sign_mask(r0); }
    let r1 = r0 + ((r0 >> 31) & Q);
    proof { lemma_sign_mask(r1); }
    let r = r1 + ((r1 >> 31) & Q);
    proof {
        let k: int = if t4 < 0 { 1 } else if t4 < Q { 0 } else { -1 };
        assert(r as int == t4 as int + 8380417 * k);
        assert(0 <= r < Q);
        lemma_mod_multiples_vanish(k, t4 as int, 8380417);
        lemma_small_mod(r as nat, 8380417);
    }
    r
}

/// ZETA^BitRev8(i) mod q for i in 1..256 (`lemma_zetas_are_powers`): the twiddle factors of
/// the NTT. Entry 0 is not used.
pub const ML_DSA_ZETAS: [i32; 256] = [
    0, 4808194, 3765607, 3761513, 5178923, 5496691, 5234739, 5178987, 7778734, 3542485,
    2682288, 2129892, 3764867, 7375178, 557458, 7159240, 5010068, 4317364, 2663378, 6705802,
    4855975, 7946292, 676590, 7044481, 5152541, 1714295, 2453983, 1460718, 7737789, 4795319,
    2815639, 2283733, 3602218, 3182878, 2740543, 4793971, 5269599, 2101410, 3704823, 1159875,
    394148, 928749, 1095468, 4874037, 2071829, 4361428, 3241972, 2156050, 3415069, 1759347,
    7562881, 4805951, 3756790, 6444618, 6663429, 4430364, 5483103, 3192354, 556856, 3870317,
    2917338, 1853806, 3345963, 1858416, 3073009, 1277625, 5744944, 3852015, 4183372, 5157610,
    5258977, 8106357, 2508980, 2028118, 1937570, 4564692, 2811291, 5396636, 7270901, 4158088,
    1528066, 482649, 1148858, 5418153, 7814814, 169688, 2462444, 5046034, 4213992, 4892034,
    1987814, 5183169, 1736313, 235407, 5130263, 3258457, 5801164, 1787943, 5989328, 6125690,
    3482206, 4197502, 7080401, 6018354, 7062739, 2461387, 3035980, 621164, 3901472, 7153756,
    2925816, 3374250, 1356448, 5604662, 2683270, 5601629, 4912752, 2312838, 7727142, 7921254,
    348812, 8052569, 1011223, 6026202, 4561790, 6458164, 6143691, 1744507, 1753, 6444997,
    5720892, 6924527, 2660408, 6600190, 8321269, 2772600, 1182243, 87208, 636927, 4415111,
    4423672, 6084020, 5095502, 4663471, 8352605, 822541, 1009365, 5926272, 6400920, 1596822,
    4423473, 4620952, 6695264, 4969849, 2678278, 4611469, 4829411, 635956, 8129971, 5925040,
    4234153, 6607829, 2192938, 6653329, 2387513, 4768667, 8111961, 5199961, 3747250, 2296099,
    1239911, 4541938, 3195676, 2642980, 1254190, 8368000, 2998219, 141835, 8291116, 2513018,
    7025525, 613238, 7070156, 6161950, 7921677, 6458423, 4040196, 4908348, 2039144, 6500539,
    7561656, 6201452, 6757063, 2105286, 6006015, 6346610, 586241, 7200804, 527981, 5637006,
    6903432, 1994046, 2491325, 6987258, 507927, 7192532, 7655613, 6545891, 5346675, 8041997,
    2647994, 3009748, 5767564, 4148469, 749577, 4357667, 3980599, 2569011, 6764887, 1723229,
    1665318, 2028038, 1163598, 5011144, 3994671, 8368538, 7009900, 3020393, 3363542, 214880,
    545376, 7609976, 3105558, 7277073, 508145, 7826699, 860144, 3430436, 140244, 6866265,
    6195333, 3123762, 2358373, 6187330, 5365997, 6663603, 2926054, 7987710, 8077412, 3531229,
    4405932, 4606686, 1900052, 7598542, 1054478, 7648983,
];

/// The zeta table as integers.
pub open spec fn zeta(i: int) -> int {
    ML_DSA_ZETAS@[i] as int
}

/// Half the block size at depth d of the forward transform (the `len` of the butterfly loops).
pub open spec fn layer_len(d: int) -> int {
    if d == 0 { 128 } else if d == 1 { 64 } else if d == 2 { 32 } else if d == 3 { 16 }
    else if d == 4 { 8 } else if d == 5 { 4 } else if d == 6 { 2 } else if d == 7 { 1 } else { 0 }
}

/// 2^d for the depths of the transform.
pub open spec fn layer_pow(d: int) -> int {
    if d == 0 { 1 } else if d == 1 { 2 } else if d == 2 { 4 } else if d == 3 { 8 }
    else if d == 4 { 16 } else if d == 5 { 32 } else if d == 6 { 64 } else if d == 7 { 128 } else { 256 }
}

/// Coefficients as integers.
pub open spec fn ints(s: Seq<i32>) -> Seq<int> {
    s.map_values(|x: i32| x as int)
}

/// Depth d of the forward transform (Cooley-Tukey butterflies),
/// over the integers: block b of size 2 * len uses zeta(2^d + b).
pub open spec fn fwd_layer(s: Seq<int>, d: int) -> Seq<int> {
    Seq::new(256, |p: int| {
        let len = layer_len(d);
        let b = p / (2 * len);
        let jj = p % (2 * len);
        let z = zeta(layer_pow(d) + b);
        if jj < len { s[p] + z * s[p + len] } else { s[p - len] - z * s[p] }
    })
}

/// The first n depths of the forward transform.
pub open spec fn fwd_layers(s: Seq<int>, n: nat) -> Seq<int>
    decreases n,
{
    if n == 0 { s } else { fwd_layer(fwd_layers(s, (n - 1) as nat), n - 1) }
}

/// Every zeta with index in [lo, hi) lies in [0, q).
spec fn zetas_in_range(lo: int, hi: int) -> bool
    decreases hi - lo,
{
    if hi - lo <= 0 {
        true
    } else if hi - lo == 1 {
        0 <= zeta(lo) < Q
    } else {
        zetas_in_range(lo, lo + (hi - lo) / 2) && zetas_in_range(lo + (hi - lo) / 2, hi)
    }
}

proof fn lemma_zetas_in_range_at(lo: int, hi: int, i: int)
    requires
        zetas_in_range(lo, hi),
        lo <= i < hi,
    ensures
        0 <= zeta(i) < Q,
    decreases hi - lo,
{
    if hi - lo > 1 {
        let mid = lo + (hi - lo) / 2;
        if i < mid {
            lemma_zetas_in_range_at(lo, mid, i);
        } else {
            lemma_zetas_in_range_at(mid, hi, i);
        }
    }
}

/// Every zeta lies in [0, q).
pub proof fn lemma_zeta_range(i: int)
    requires
        0 <= i < 256,
    ensures
        0 <= zeta(i) < Q,
{
    assert(zetas_in_range(0, 256)) by {
        reveal_with_fuel(zetas_in_range, 10);
    }
    lemma_zetas_in_range_at(0, 256, i);
}

/// Facts about the layer tables, for each depth.
proof fn lemma_layer_tables(d: int)
    requires
        0 <= d < 8,
    ensures
        layer_len(d) >= 1,
        2 * layer_len(d) * layer_pow(d) == 256,
        layer_pow(d + 1) == 2 * layer_pow(d),
        d < 7 ==> layer_len(d + 1) * 2 == layer_len(d),
        d == 7 ==> layer_len(d) == 1 && layer_len(d + 1) == 0,
        layer_pow(d) + layer_pow(d) <= 256,
{
}

/// Index arithmetic inside a block of size 2 * len.
proof fn lemma_block_index(b: int, len: int, jj: int)
    requires
        len > 0,
        b >= 0,
        0 <= jj < 2 * len,
    ensures
        (2 * len * b + jj) / (2 * len) == b,
        (2 * len * b + jj) % (2 * len) == jj,
{
    assert(2 * len * b == b * (2 * len)) by (nonlinear_arith);
    lemma_fundamental_div_mod_converse(2 * len * b + jj, 2 * len, b, jj);
}

/// Congruence is preserved by a butterfly.
proof fn lemma_canon_butterfly(a: int, a2: int, x: int, x2: int, z: int, t: int, neg: bool)
    requires
        canon(a) == canon(a2),
        canon(x) == canon(x2),
        canon(t) == canon(z * x),
    ensures
        neg ==> canon(a - t) == canon(a2 - z * x2),
        !neg ==> canon(a + t) == canon(a2 + z * x2),
{
    lemma_mul_mod_noop_right(z, x, Q as int);
    lemma_mul_mod_noop_right(z, x2, Q as int);
    assert(canon(z * x) == canon(z * x2));
    if neg {
        lemma_sub_mod_noop(a, t, Q as int);
        lemma_sub_mod_noop(a2, z * x2, Q as int);
    } else {
        lemma_add_mod_noop(a, t, Q as int);
        lemma_add_mod_noop(a2, z * x2, Q as int);
    }
}

/// A coefficient of the forward transform state: congruent to `s[p]` and bounded.
pub open spec fn tracks(v: i64, s: Seq<int>, p: int, bound: int) -> bool {
    canon(v as int) == canon(s[p]) && abs(v as int) <= bound
}

/// Bound on the coefficients of the forward state after d depths.
pub open spec fn fwd_bound(d: int) -> int {
    0x8000_0000 + d * 0x400_0000
}

/// Size bounds for one forward butterfly.
proof fn lemma_fwd_product(z: int, v: int, d: int)
    requires
        0 <= z < Q,
        abs(v) <= fwd_bound(d),
        0 <= d < 8,
    ensures
        abs(z * v) <= 0x80_0000_0000_0000,
        abs(z * v) / 0x4000_0000 <= 0x200_0000,
{
    assert(abs(z * v) <= 0x80_0000_0000_0000) by (nonlinear_arith)
        requires
            0 <= z < 8380417,
            abs(v) <= 0x8000_0000 + 8 * 0x400_0000,
    {
        if v < 0 {
            assert(z * (-v) <= 8380417 * (0x8000_0000 + 8 * 0x400_0000));
            assert(z * v == -(z * (-v)));
        } else {
            assert(z * v <= 8380417 * (0x8000_0000 + 8 * 0x400_0000));
        }
    }
    lemma_div_is_ordered(abs(z * v), 0x80_0000_0000_0000, 0x4000_0000);
}

/// The forward transform on 64-bit coefficients,
/// followed by reduction of every coefficient into [0, q).
#[verifier::spinoff_prover]
#[verifier::rlimit(40)]
fn ntt_impl(wh: &mut [i64; 256]) -> (r: [i32; 256])
    requires
        forall|p: int| 0 <= p < 256 ==> abs(#[trigger] old(wh)@[p] as int) <= 0x8000_0000,
    ensures
        forall|p: int| 0 <= p < 256 ==> (#[trigger] r@[p]) as int
            == canon(fwd_layers(old(wh)@.map_values(|x: i64| x as int), 8)[p]),
{
    let ghost s0: Seq<int> = old(wh)@.map_values(|x: i64| x as int);
    let mut i: usize = 0;
    let mut len: usize = 128;
    let ghost mut d: int = 0;
    while len >= 1
        invariant
            0 <= d <= 8,
            len == layer_len(d),
            i + 1 == layer_pow(d),
            forall|p: int| 0 <= p < 256 ==> tracks(#[trigger] wh@[p], fwd_layers(s0, d as nat), p, fwd_bound(d)),
        decreases 8 - d,
    {
        proof { lemma_layer_tables(d); }
        let ghost sd = fwd_layers(s0, d as nat);
        let ghost sn = fwd_layers(s0, (d + 1) as nat);
        assert(sn == fwd_layer(sd, d));
        let mut start: usize = 0;
        let ghost mut b: int = 0;
        while start < 256
            invariant
                0 <= d < 8,
                len == layer_len(d),
                len >= 1,
                2 * len * layer_pow(d) == 256,
                sd == fwd_layers(s0, d as nat),
                sn == fwd_layer(sd, d),
                0 <= b <= layer_pow(d),
                start == 2 * len * b,
                i + 1 == layer_pow(d) + b,
                forall|p: int| 0 <= p < start ==> tracks(#[trigger] wh@[p], sn, p, fwd_bound(d + 1)),
                forall|p: int| start <= p < 256 ==> tracks(#[trigger] wh@[p], sd, p, fwd_bound(d)),
            decreases 256 - start,
        {
            assert(b < layer_pow(d)) by (nonlinear_arith)
                requires start == 2 * len * b, start < 256, 2 * len * layer_pow(d) == 256, len >= 1;
            assert(start + 2 * len <= 256) by (nonlinear_arith)
                requires start == 2 * len * b, b < layer_pow(d), 2 * len * layer_pow(d) == 256;
            i += 1;
            proof { lemma_zeta_range(i as int); }
            let z = ML_DSA_ZETAS[i] as i64;
            for j in start..start + len
                invariant
                    0 <= d < 8,
                    len == layer_len(d),
                    len >= 1,
                    start + 2 * len <= 256,
                    start == 2 * len * b,
                    0 <= b,
                    i == layer_pow(d) + b,
                    z == zeta(i as int),
                    0 <= z < Q,
                    sn == fwd_layer(sd, d),
                    forall|p: int| 0 <= p < start ==> tracks(#[trigger] wh@[p], sn, p, fwd_bound(d + 1)),
                    forall|p: int| start <= p < j ==> tracks(#[trigger] wh@[p], sn, p, fwd_bound(d + 1)),
                    forall|p: int| start + len <= p < j + len ==> tracks(#[trigger] wh@[p], sn, p, fwd_bound(d + 1)),
                    forall|p: int| j <= p < start + len ==> tracks(#[trigger] wh@[p], sd, p, fwd_bound(d)),
                    forall|p: int| j + len <= p < start + 2 * len ==> tracks(#[trigger] wh@[p], sd, p, fwd_bound(d)),
                    forall|p: int| start + 2 * len <= p < 256 ==> tracks(#[trigger] wh@[p], sd, p, fwd_bound(d)),
            {
                let ghost jj: int = j - start;
                assert(tracks(wh@[j + len as int], sd, j + len, fwd_bound(d)));
                assert(tracks(wh@[j as int], sd, j as int, fwd_bound(d)));
                proof { lemma_fwd_product(z as int, wh@[j + len as int] as int, d); }
                let t = mod_q(z * wh[j + len]) as i64;
                proof {
                    lemma_block_index(b, len as int, jj);
                    lemma_block_index(b, len as int, jj + len);
                    assert(sn[j as int] == sd[j as int] + zeta(i as int) * sd[j + len]);
                    assert(sn[j + len] == sd[j as int] - zeta(i as int) * sd[j + len]);
                    lemma_canon_butterfly(wh@[j as int] as int, sd[j as int], wh@[j + len as int] as int,
                        sd[j + len], z as int, t as int, true);
                    lemma_canon_butterfly(wh@[j as int] as int, sd[j as int], wh@[j + len as int] as int,
                        sd[j + len], z as int, t as int, false);
                }
                wh[j + len] = wh[j] - t;
                wh[j] = wh[j] + t;
            }
            start += 2 * len;
            proof { b = b + 1; }
            assert(start == 2 * len * b) by (nonlinear_arith)
                requires start == 2 * len * (b - 1) + 2 * len;
        }
        assert(b == layer_pow(d)) by (nonlinear_arith)
            requires start == 2 * len * b, start >= 256, b <= layer_pow(d), 2 * len * layer_pow(d) == 256, len >= 1;
        len = len / 2;
        proof { d = d + 1; }
    }
    let mut r = [0i32; 256];
    for p in 0..256
        invariant
            d == 8,
            forall|q: int| 0 <= q < 256 ==> tracks(#[trigger] wh@[q], fwd_layers(s0, 8), q, fwd_bound(8)),
            forall|q: int| 0 <= q < p ==> (#[trigger] r@[q]) as int == canon(fwd_layers(s0, 8)[q]),
    {
        assert(tracks(wh@[p as int], fwd_layers(s0, 8), p as int, fwd_bound(8)));
        let v = mod_q(wh[p]);
        proof { lemma_mod_mod(fwd_layers(s0, 8)[p as int], Q as int, 1); }
        r[p] = v;
    }
    r
}

/// The forward transform over Z_q: the canonical values of all eight depths
/// of butterflies applied to w.
pub open spec fn ntt_spec(w: Seq<int>) -> Seq<int> {
    Seq::new(256, |p: int| canon(fwd_layers(w, 8)[p]))
}

/// Computes the NTT of w: coefficient c of the result is
/// w evaluated at root(8, c), reduced into [0, q).
pub fn ntt(w: &[i32; 256]) -> (r: [i32; 256])
    ensures
        r@.map_values(|x: i32| x as int) == ntt_spec(ints(w@)),
        forall|c: int| 0 <= c < 256 ==> (#[trigger] r@[c]) as int == canon(poly_eval(ints(w@), root(8, c))),
{
    let mut wh = [0i64; 256];
    for p in 0..256
        invariant
            forall|q: int| 0 <= q < p ==> (#[trigger] wh@[q]) as int == w@[q] as int,
    {
        wh[p] = w[p] as i64;
    }
    let ghost s0 = wh@;
    assert(s0.map_values(|x: i64| x as int) == ints(w@));
    let r = ntt_impl(&mut wh);
    assert(r@.map_values(|x: i32| x as int) == ntt_spec(ints(w@)));
    proof {
        assert forall|c: int| 0 <= c < 256 implies (#[trigger] r@[c]) as int
            == canon(poly_eval(ints(w@), root(8, c))) by {
            lemma_ntt_spec_eval(ints(w@), c);
            assert(r@.map_values(|x: i32| x as int)[c] == r@[c] as int);
        }
    }
    r
}

/// Layer k of the inverse transform (Gentleman-Sande butterflies),
/// over the integers: blocks of size 2 * 2^k, block b uses -zeta(2^(8-k) - 1 - b).
pub open spec fn inv_layer(s: Seq<int>, k: int) -> Seq<int> {
    Seq::new(256, |p: int| {
        let len = layer_pow(k);
        let b = p / (2 * len);
        let jj = p % (2 * len);
        let z = -zeta(2 * layer_len(k) - 1 - b);
        if jj < len { s[p] + s[p + len] } else { z * (s[p - len] - s[p]) }
    })
}

/// The first n layers of the inverse transform.
pub open spec fn inv_layers(s: Seq<int>, n: nat) -> Seq<int>
    decreases n,
{
    if n == 0 { s } else { inv_layer(inv_layers(s, (n - 1) as nat), n - 1) }
}

/// 256^-1 mod q.
pub const N_INV: i64 = 8347681;

/// The inverse transform over Z_q: all eight layers, then scaling by 256^-1.
pub open spec fn intt_spec(y: Seq<int>) -> Seq<int> {
    Seq::new(256, |p: int| canon(canon(inv_layers(y, 8)[p]) * 8347681))
}

/// Bound on the coefficients of the inverse state before layer k.
pub open spec fn inv_bound(k: int) -> int {
    layer_pow(k) * 0x2000_0000
}

/// Size bounds for one inverse butterfly.
proof fn lemma_inv_product(z: int, u: int, v: int, k: int)
    requires
        -(Q as int) < z <= 0,
        abs(u) <= inv_bound(k),
        abs(v) <= inv_bound(k),
        0 <= k < 8,
    ensures
        abs(z * (u - v)) <= 0x1000_0000_0000_0000,
        abs(z * (u - v)) / 0x4000_0000 + 0x100_0003 <= inv_bound(k + 1),
        abs(u + v) <= inv_bound(k + 1),
{
    let pk = layer_pow(k);
    assert(1 <= pk <= 128 && layer_pow(k + 1) == 2 * pk);
    let x = u - v;
    assert(abs(x) <= 2 * pk * 0x2000_0000);
    assert(abs(z * x) <= 8380417 * (2 * pk * 0x2000_0000)) by (nonlinear_arith)
        requires -8380417 < z <= 0, abs(x) <= 2 * pk * 0x2000_0000, pk >= 1,
    {
        if x < 0 {
            assert((-z) * (-x) <= 8380417 * (2 * pk * 0x2000_0000));
        } else {
            assert((-z) * x <= 8380417 * (2 * pk * 0x2000_0000));
        }
    }
    assert(8380417 * (2 * pk * 0x2000_0000) <= 0x1000_0000_0000_0000) by (nonlinear_arith)
        requires pk <= 128;
    assert(8380417 * (2 * pk * 0x2000_0000) == (8380417 * 2 * 0x2000_0000) * pk) by (nonlinear_arith);
    lemma_div_is_ordered(abs(z * x), (8380417 * 2 * 0x2000_0000) * pk, 0x4000_0000);
    assert(((8380417 * 2 * 0x2000_0000) * pk) / 0x4000_0000 <= 8380417 * pk) by {
        lemma_div_multiples_vanish(8380417 * pk, 0x4000_0000);
        assert((8380417 * 2 * 0x2000_0000) * pk == 0x4000_0000 * (8380417 * pk)) by (nonlinear_arith);
    }
}

/// The inverse transform on 64-bit coefficients,
/// followed by scaling with 256^-1 and reduction into [0, q).
#[verifier::spinoff_prover]
#[verifier::rlimit(40)]
fn ntt_inverse_impl(w: &mut [i64; 256]) -> (r: [i32; 256])
    requires
        forall|p: int| 0 <= p < 256 ==> abs(#[trigger] old(w)@[p] as int) <= 0x2000_0000,
    ensures
        r@.map_values(|x: i32| x as int) == intt_spec(old(w)@.map_values(|x: i64| x as int)),
{
    let ghost s0: Seq<int> = old(w)@.map_values(|x: i64| x as int);
    let mut m: usize = 256;
    let mut len: usize = 1;
    let ghost mut k: int = 0;
    while len < 256
        invariant
            0 <= k <= 8,
            len == layer_pow(k),
            m == 2 * layer_len(k) || (k == 8 && m == 1),
            forall|p: int| 0 <= p < 256 ==> tracks(#[trigger] w@[p], inv_layers(s0, k as nat), p, inv_bound(k)),
        decreases 8 - k,
    {
        assert(k < 8);
        proof { lemma_layer_tables(k); lemma_layer_tables(7 - k); }
        let ghost sd = inv_layers(s0, k as nat);
        let ghost sn = inv_layers(s0, (k + 1) as nat);
        assert(sn == inv_layer(sd, k));
        let mut start: usize = 0;
        let ghost mut b: int = 0;
        while start < 256
            invariant
                0 <= k < 8,
                len == layer_pow(k),
                len >= 1,
                2 * len * layer_len(k) == 256,
                sd == inv_layers(s0, k as nat),
                sn == inv_layer(sd, k),
                0 <= b <= layer_len(k),
                start == 2 * len * b,
                m + b == 2 * layer_len(k),
                forall|p: int| 0 <= p < start ==> tracks(#[trigger] w@[p], sn, p, inv_bound(k + 1)),
                forall|p: int| start <= p < 256 ==> tracks(#[trigger] w@[p], sd, p, inv_bound(k)),
            decreases 256 - start,
        {
            assert(b < layer_len(k)) by (nonlinear_arith)
                requires start == 2 * len * b, start < 256, 2 * len * layer_len(k) == 256, len >= 1;
            assert(start + 2 * len <= 256) by (nonlinear_arith)
                requires start == 2 * len * b, b < layer_len(k), 2 * len * layer_len(k) == 256;
            m -= 1;
            proof { lemma_zeta_range(m as int); }
            let z = -ML_DSA_ZETAS[m] as i64;
            for j in start..start + len
                invariant
                    0 <= k < 8,
                    len == layer_pow(k),
                    len >= 1,
                    start + 2 * len <= 256,
                    start == 2 * len * b,
                    0 <= b,
                    m == 2 * layer_len(k) - 1 - b,
                    z == -zeta(m as int),
                    -(Q as int) < z <= 0,
                    sn == inv_layer(sd, k),
                    forall|p: int| 0 <= p < start ==> tracks(#[trigger] w@[p], sn, p, inv_bound(k + 1)),
                    forall|p: int| start <= p < j ==> tracks(#[trigger] w@[p], sn, p, inv_bound(k + 1)),
                    forall|p: int| start + len <= p < j + len ==> tracks(#[trigger] w@[p], sn, p, inv_bound(k + 1)),
                    forall|p: int| j <= p < start + len ==> tracks(#[trigger] w@[p], sd, p, inv_bound(k)),
                    forall|p: int| j + len <= p < start + 2 * len ==> tracks(#[trigger] w@[p], sd, p, inv_bound(k)),
                    forall|p: int| start + 2 * len <= p < 256 ==> tracks(#[trigger] w@[p], sd, p, inv_bound(k)),
            {
                let ghost jj: int = j - start;
                assert(tracks(w@[j + len as int], sd, j + len, inv_bound(k)));
                assert(tracks(w@[j as int], sd, j as int, inv_bound(k)));
                proof {
                    lemma_inv_product(z as int, w@[j as int] as int, w@[j + len as int] as int, k);
                    lemma_block_index(b, len as int, jj);
                    lemma_block_index(b, len as int, jj + len);
                    assert(sn[j as int] == sd[j as int] + sd[j + len]);
                    assert(sn[j + len] == z * (sd[j as int] - sd[j + len]));
                }
                let t = w[j];
                w[j] = t + w[j + len];
                let w_j_plus_len = t - w[j + len];
                let u = mod_q(z * w_j_plus_len);
                proof {
                    lemma_add_mod_noop(t as int, w@[j + len as int] as int, Q as int);
                    lemma_add_mod_noop(sd[j as int], sd[j + len], Q as int);
                    lemma_sub_mod_noop(t as int, w@[j + len as int] as int, Q as int);
                    lemma_sub_mod_noop(sd[j as int], sd[j + len], Q as int);
                    lemma_mul_mod_noop_right(z as int, w_j_plus_len as int, Q as int);
                    lemma_mul_mod_noop_right(z as int, sd[j as int] - sd[j + len], Q as int);
                }
                w[j + len] = u as i64;
            }
            start += 2 * len;
            proof { b = b + 1; }
            assert(start == 2 * len * b) by (nonlinear_arith)
                requires start == 2 * len * (b - 1) + 2 * len;
        }
        assert(b == layer_len(k)) by (nonlinear_arith)
            requires start == 2 * len * b, start >= 256, b <= layer_len(k), 2 * len * layer_len(k) == 256, len >= 1;
        len = len * 2;
        proof { k = k + 1; }
    }
    assert(k == 8);
    let mut r = [0i32; 256];
    for p in 0..256
        invariant
            k == 8,
            forall|q: int| 0 <= q < 256 ==> tracks(#[trigger] w@[q], inv_layers(s0, 8), q, inv_bound(8)),
            forall|q: int| 0 <= q < p ==> (#[trigger] r@[q]) as int == canon(canon(inv_layers(s0, 8)[q]) * 8347681),
    {
        assert(tracks(w@[p as int], inv_layers(s0, 8), p as int, inv_bound(8)));
        let v = mod_q(w[p]);
        assert(v as int == canon(inv_layers(s0, 8)[p as int])) by {
            lemma_mod_mod(inv_layers(s0, 8)[p as int], Q as int, 1);
        }
        let v2 = mod_q(v as i64 * N_INV);
        r[p] = v2;
    }
    assert(r@.map_values(|x: i32| x as int) == intt_spec(s0));
    r
}

/// Computes the inverse NTT of wh, scaled by 256^-1; every output coefficient lies
/// in [0, q). It undoes `ntt` (`lemma_intt_ntt`), and `ntt` undoes it up to reduction
/// modulo q (`lemma_ntt_intt`).
///
/// Coefficients are taken in [-2^29, 2^29], where no intermediate value leaves
/// the range on which `mod_q` is exact.
pub fn ntt_inverse(wh: &[i32; 256]) -> (r: [i32; 256])
    requires
        forall|p: int| 0 <= p < 256 ==> -0x2000_0000 <= #[trigger] wh@[p] <= 0x2000_0000,
    ensures
        r@.map_values(|x: i32| x as int) == intt_spec(ints(wh@)),
{
    let mut w = [0i64; 256];
    for p in 0..256
        invariant
            forall|q: int| 0 <= q < p ==> (#[trigger] w@[q]) as int == wh@[q] as int,
    {
        w[p] = wh[p] as i64;
    }
    assert(w@.map_values(|x: i64| x as int) == ints(wh@));
    ntt_inverse_impl(&mut w)
}

/// Coefficient-wise sum in Z_q (NTT domain).
pub fn ntt_add(ah: &[i32; 256], bh: &[i32; 256]) -> (r: [i32; 256])
    requires
        forall|p: int| 0 <= p < 256 ==> i32::MIN <= #[trigger] ah@[p] + bh@[p] <= i32::MAX,
    ensures
        forall|p: int| 0 <= p < 256 ==> (#[trigger] r@[p]) as int == canon(ah@[p] + bh@[p]),
{
    let mut r = [0i32; 256];
    for i in 0..256
        invariant
            forall|p: int| 0 <= p < 256 ==> i32::MIN <= #[trigger] ah@[p] + bh@[p] <= i32::MAX,
            forall|p: int| 0 <= p < i ==> (#[trigger] r@[p]) as int == canon(ah@[p] + bh@[p]),
    {
        assert(i32::MIN <= ah@[i as int] + bh@[i as int] <= i32::MAX);
        r[i] = mod_q((ah[i] + bh[i]) as i64);
    }
    r
}

/// Coefficient-wise difference in Z_q (NTT domain).
pub fn ntt_sub(ah: &[i32; 256], bh: &[i32; 256]) -> (r: [i32; 256])
    requires
        forall|p: int| 0 <= p < 256 ==> i32::MIN <= #[trigger] ah@[p] - bh@[p] <= i32::MAX,
    ensures
        forall|p: int| 0 <= p < 256 ==> (#[trigger] r@[p]) as int == canon(ah@[p] - bh@[p]),
{
    let mut r = [0i32; 256];
    for i in 0..256
        invariant
            forall|p: int| 0 <= p < 256 ==> i32::MIN <= #[trigger] ah@[p] - bh@[p] <= i32::MAX,
            forall|p: int| 0 <= p < i ==> (#[trigger] r@[p]) as int == canon(ah@[p] - bh@[p]),
    {
        assert(i32::MIN <= ah@[i as int] - bh@[i as int] <= i32::MAX);
        r[i] = mod_q((ah[i] - bh[i]) as i64);
    }
    r
}

/// Coefficient-wise negation in Z_q.
pub fn ntt_neg(w: &[i32; 256]) -> (r: [i32; 256])
    requires
        forall|p: int| 0 <= p < 256 ==> #[trigger] w@[p] > i32::MIN,
    ensures
        forall|p: int| 0 <= p < 256 ==> (#[trigger] r@[p]) as int == canon(-w@[p]),
{
    let mut r = [0i32; 256];
    for i in 0..256
        invariant
            forall|p: int| 0 <= p < 256 ==> #[trigger] w@[p] > i32::MIN,
            forall|p: int| 0 <= p < i ==> (#[trigger] r@[p]) as int == canon(-w@[p]),
    {
        assert(w@[i as int] > i32::MIN);
        r[i] = mod_q(-w[i] as i64);
    }
    r
}

/// Negates every polynomial of a vector in Z_q.
pub fn ntt_neg_vec<const D: usize>(v: &[[i32; 256]; D]) -> (r: [[i32; 256]; D])
    requires
        forall|k: int, p: int| 0 <= k < D && 0 <= p < 256 ==> #[trigger] v@[k]@[p] > i32::MIN,
    ensures
        forall|k: int, p: int| 0 <= k < D && 0 <= p < 256 ==>
            (#[trigger] r@[k]@[p]) as int == canon(-v@[k]@[p]),
{
    let mut r = [[0i32; 256]; D];
    for i in 0..D
        invariant
            forall|k: int, p: int| 0 <= k < D && 0 <= p < 256 ==> #[trigger] v@[k]@[p] > i32::MIN,
            forall|k: int, p: int| 0 <= k < i && 0 <= p < 256 ==>
                (#[trigger] r@[k]@[p]) as int == canon(-v@[k]@[p]),
    {
        assert(forall|p: int| 0 <= p < 256 ==> #[trigger] v@[i as int]@[p] > i32::MIN);
        r[i] = ntt_neg(&v[i]);
    }
    r
}

/// Coefficient-wise product in Z_q (NTT domain), reduced into [0, q).
pub fn ntt_multiply(ah: &[i32; 256], bh: &[i32; 256]) -> (r: [i32; 256])
    requires
        forall|p: int| 0 <= p < 256 ==> abs(#[trigger] (ah@[p] * bh@[p])) <= 0x1000_0000_0000_0000,
    ensures
        forall|p: int| 0 <= p < 256 ==> (#[trigger] r@[p]) as int == canon(ah@[p] * bh@[p]),
{
    let mut r = [0i32; 256];
    for i in 0..256
        invariant
            forall|p: int| 0 <= p < 256 ==> abs(#[trigger] (ah@[p] * bh@[p])) <= 0x1000_0000_0000_0000,
            forall|p: int| 0 <= p < i ==> (#[trigger] r@[p]) as int == canon(ah@[p] * bh@[p]),
    {
        assert(abs(ah@[i as int] * bh@[i as int]) <= 0x1000_0000_0000_0000);
        assert(-0x8000_0000 <= ah@[i as int] <= 0x7FFF_FFFF && -0x8000_0000 <= bh@[i as int] <= 0x7FFF_FFFF);
        assert(-0x4000_0000_0000_0000 <= ah@[i as int] * bh@[i as int] <= 0x4000_0000_0000_0000) by (nonlinear_arith)
            requires -0x8000_0000 <= ah@[i as int] <= 0x7FFF_FFFF, -0x8000_0000 <= bh@[i as int] <= 0x7FFF_FFFF;
        r[i] = mod_q(ah[i] as i64 * bh[i] as i64);
    }
    r
}

/// Coefficient-wise difference of two polynomials, without reduction.
pub fn poly_sub(ah: &[i32; 256], bh: &[i32; 256]) -> (r: [i32; 256])
    requires
        forall|p: int| 0 <= p < 256 ==> i32::MIN <= #[trigger] ah@[p] - bh@[p] <= i32::MAX,
    ensures
        forall|p: int| 0 <= p < 256 ==> (#[trigger] r@[p]) as int == ah@[p] - bh@[p],
{
    let mut r = [0i32; 256];
    for i in 0..256
        invariant
            forall|p: int| 0 <= p < 256 ==> i32::MIN <= #[trigger] ah@[p] - bh@[p] <= i32::MAX,
            forall|p: int| 0 <= p < i ==> (#[trigger] r@[p]) as int == ah@[p] - bh@[p],
    {
        assert(i32::MIN <= ah@[i as int] - bh@[i as int] <= i32::MAX);
        r[i] = ah[i] - bh[i];
    }
    r
}

/// Coefficient-wise sum of two polynomials in Z_q.
pub fn poly_add(ah: &[i32; 256], bh: &[i32; 256]) -> (r: [i32; 256])
    requires
        forall|p: int| 0 <= p < 256 ==> i32::MIN <= #[trigger] ah@[p] + bh@[p] <= i32::MAX,
    ensures
        forall|p: int| 0 <= p < 256 ==> (#[trigger] r@[p]) as int == canon(ah@[p] + bh@[p]),
{
    let mut r = [0i32; 256];
    for i in 0..256
        invariant
            forall|p: int| 0 <= p < 256 ==> i32::MIN <= #[trigger] ah@[p] + bh@[p] <= i32::MAX,
            forall|p: int| 0 <= p < i ==> (#[trigger] r@[p]) as int == canon(ah@[p] + bh@[p]),
    {
        assert(i32::MIN <= ah@[i as int] + bh@[i as int] <= i32::MAX);
        r[i] = mod_q((ah[i] + bh[i]) as i64);
    }
    r
}

/// One square-and-multiply step: b^e = (b * b)^(e / 2) * b^(e % 2).
proof fn lemma_pow_halve(b: int, e: nat)
    ensures
        pow(b, e) == pow(b * b, e / 2) * (if e % 2 == 1 { b } else { 1 }),
{
    lemma_pow_multiplies(b, 2, e / 2);
    lemma_square_is_pow2(b);
    lemma_pow_adds(b, 2 * (e / 2), e % 2);
    lemma_pow1(b);
    lemma_pow0(b);
    assert(pow(b, 2) == b * b) by { lemma_square_is_pow2(b); }
    assert(e == 2 * (e / 2) + e % 2);
}

proof fn lemma_u8_low_bit(e: u8)
    ensures
        (e & 1u8 == 1u8) == (e % 2 == 1),
        e >> 1u8 == e / 2,
{
    assert((e & 1u8 == 1u8) == (e % 2 == 1)) by (bit_vector);
    assert(e >> 1u8 == e / 2) by (bit_vector);
}

/// One square-and-multiply step keeps result * num^exp fixed modulo q.
proof fn lemma_pow_step(rm: int, nm: int, e: nat, r2: int, n2: int)
    requires
        canon(r2) == canon(rm * (if e % 2 == 1 { nm } else { 1 })),
        n2 == canon(nm * nm),
    ensures
        canon(r2 * pow(n2, e / 2)) == canon(rm * pow(nm, e)),
{
    let rest = pow(nm * nm, e / 2);
    let f = if e % 2 == 1 { nm } else { 1 };
    lemma_pow_halve(nm, e);
    assert(pow(nm, e) == rest * f);
    lemma_pow_mod_noop(nm * nm, e / 2, Q as int);
    assert(canon(pow(n2, e / 2)) == canon(rest));
    lemma_mul_mod_noop_right(r2, pow(n2, e / 2), Q as int);
    lemma_mul_mod_noop_right(r2, rest, Q as int);
    lemma_mul_mod_noop_left(r2, rest, Q as int);
    lemma_mul_mod_noop_left(rm * f, rest, Q as int);
    assert((rm * f) * rest == rm * (rest * f)) by (nonlinear_arith);
}

/// n^exp mod q by square and multiply.
pub fn pow_mod_q(n: i32, exp: u8) -> (r: i32)
    requires
        0 <= n <= 0x400_0000,
    ensures
        r as int == canon(pow(n as int, exp as nat)),
{
    let mut result = 1i64;
    let mut exp = exp;
    let mut num = n as i64;
    let ghost e0 = exp;
    while exp > 0
        invariant
            0 <= result < Q,
            0 <= num <= 0x400_0000,
            canon(result * pow(num as int, exp as nat)) == canon(pow(n as int, e0 as nat)),
        decreases exp,
    {
        proof {
            lemma_u8_low_bit(exp);
            assert(0 <= num * num <= 0x10_0000_0000_0000) by (nonlinear_arith)
                requires 0 <= num <= 0x400_0000;
            assert(0 <= result * num <= 0x10_0000_0000_0000) by (nonlinear_arith)
                requires 0 <= num <= 0x400_0000, 0 <= result < Q;
        }
        let ghost old_result = result;
        let ghost old_num = num;
        let ghost old_exp = exp;
        if exp & 1 == 1 {
            result = mod_q(result * num) as i64;
            proof { lemma_mod_mod(old_result * old_num, Q as int, 1); }
        } else {
            proof { lemma_small_mod(result as nat, Q as nat); }
        }
        exp >>= 1;
        num = mod_q(num * num) as i64;
        proof {
            lemma_pow_step(old_result as int, old_num as int, old_exp as nat, result as int, num as int);
        }
    }
    proof { lemma_pow0(num as int); lemma_small_mod(result as nat, Q as nat); }
    result as i32
}

/// The largest power of two not above i, for 1 <= i < 256.
pub open spec fn high_bit(i: int) -> int {
    if i < 2 { 1 } else if i < 4 { 2 } else if i < 8 { 4 } else if i < 16 { 8 }
    else if i < 32 { 16 } else if i < 64 { 32 } else if i < 128 { 64 } else { 128 }
}

/// The zeta with which the inverse transform undoes the butterfly that used zeta(i).
pub open spec fn inverse_partner(i: int) -> int {
    3 * high_bit(i) - 1 - i
}

/// zeta(i) * zeta(inverse_partner(i)) = -1 (mod q) for indices in [lo, hi).
spec fn zetas_paired(lo: int, hi: int) -> bool
    decreases hi - lo,
{
    if hi - lo <= 0 {
        true
    } else if hi - lo == 1 {
        canon(zeta(lo) * zeta(inverse_partner(lo))) == Q - 1
    } else {
        zetas_paired(lo, lo + (hi - lo) / 2) && zetas_paired(lo + (hi - lo) / 2, hi)
    }
}

proof fn lemma_zetas_paired_at(lo: int, hi: int, i: int)
    requires
        zetas_paired(lo, hi),
        lo <= i < hi,
    ensures
        canon(zeta(i) * zeta(inverse_partner(i))) == Q - 1,
    decreases hi - lo,
{
    if hi - lo > 1 {
        let mid = lo + (hi - lo) / 2;
        if i < mid {
            lemma_zetas_paired_at(lo, mid, i);
        } else {
            lemma_zetas_paired_at(mid, hi, i);
        }
    }
}

proof fn lemma_zetas_paired_all()
    by (nonlinear_arith)
    ensures
        zetas_paired(1, 256),
{
    reveal_with_fuel(zetas_paired, 10);
}

/// The table pairs every forward twiddle factor with its negated inverse.
pub proof fn lemma_zeta_pairing(i: int)
    requires
        1 <= i < 256,
    ensures
        canon(zeta(i) * zeta(inverse_partner(i))) == Q - 1,
{
    lemma_zetas_paired_all();
    lemma_zetas_paired_at(1, 256, i);
}

/// Coefficient-wise congruence modulo q of two 256-coefficient sequences.
pub open spec fn cong(s: Seq<int>, t: Seq<int>) -> bool {
    forall|p: int| 0 <= p < 256 ==> canon(#[trigger] s[p]) == canon(t[p])
}

/// Every coefficient multiplied by c.
pub open spec fn scale(s: Seq<int>, c: int) -> Seq<int> {
    Seq::new(256, |p: int| c * s[p])
}

/// Layer 7 - e of the inverse transform undoes depth e of the forward transform, up to a factor 2.
proof fn lemma_inv_undoes_fwd(s: Seq<int>, e: int, p: int)
    requires
        0 <= e < 8,
        0 <= p < 256,
    ensures
        canon(inv_layer(fwd_layer(s, e), 7 - e)[p]) == canon(2 * s[p]),
{
    lemma_layer_tables(e);
    let len = layer_len(e);
    assert(layer_pow(7 - e) == len);
    assert(layer_len(7 - e) == layer_pow(e));
    let f = fwd_layer(s, e);
    lemma_fundamental_div_mod(p, 2 * len);
    let b = p / (2 * len);
    let jj = p % (2 * len);
    assert(p == 2 * len * b + jj) by (nonlinear_arith) requires p == (2 * len) * b + jj;
    assert(0 <= b < layer_pow(e)) by (nonlinear_arith)
        requires p == 2 * len * b + jj, 0 <= jj < 2 * len, 0 <= p < 256, 2 * len * layer_pow(e) == 256, len >= 1;
    let i = layer_pow(e) + b;
    let m = 2 * layer_pow(e) - 1 - b;
    assert(high_bit(i) == layer_pow(e));
    assert(inverse_partner(i) == m);
    lemma_zeta_pairing(i);
    let z = zeta(i);
    let zm = zeta(m);
    if jj < len {
        lemma_block_index(b, len, jj + len);
        assert(p + len < 256) by (nonlinear_arith)
            requires p == 2 * len * b + jj, jj < len, 0 <= b < layer_pow(e), 2 * len * layer_pow(e) == 256,
                jj >= 0, len >= 1;
        assert(f[p] == s[p] + z * s[p + len]);
        assert(f[p + len] == s[p] - z * s[p + len]);
        assert(inv_layer(f, 7 - e)[p] == f[p] + f[p + len]);
    } else {
        lemma_block_index(b, len, jj - len);
        assert(p - len >= 0);
        assert(f[p - len] == s[p - len] + z * s[p]);
        assert(f[p] == s[p - len] - z * s[p]);
        assert(inv_layer(f, 7 - e)[p] == -zm * (f[p - len] - f[p]));
        assert(-zm * (f[p - len] - f[p]) == -(zm * z) * (2 * s[p])) by (nonlinear_arith)
            requires f[p - len] - f[p] == 2 * (z * s[p]);
        lemma_mul_mod_noop_left(-(zm * z), 2 * s[p], Q as int);
        assert(zm * z == z * zm) by (nonlinear_arith);
        lemma_mod_neg_neg(z * zm, Q as int);
        assert(canon(-(zm * z)) == 1) by {
            lemma_sub_mod_noop(0, zm * z, Q as int);
        }
        lemma_mul_mod_noop_left(1, 2 * s[p], Q as int);
    }
}

/// An inverse layer maps congruent, scaled inputs to congruent, scaled outputs.
proof fn lemma_inv_layer_cong_scale(s: Seq<int>, t: Seq<int>, c: int, k: int)
    requires
        0 <= k < 8,
        s.len() == 256,
        t.len() == 256,
        cong(s, scale(t, c)),
    ensures
        cong(inv_layer(s, k), scale(inv_layer(t, k), c)),
{
    lemma_layer_tables(7 - k);
    let len = layer_pow(k);
    assert(len >= 1 && 2 * len * layer_len(k) == 256);
    assert forall|p: int| 0 <= p < 256 implies canon(#[trigger] inv_layer(s, k)[p])
        == canon(scale(inv_layer(t, k), c)[p]) by {
        lemma_fundamental_div_mod(p, 2 * len);
        let b = p / (2 * len);
        let jj = p % (2 * len);
        let z = -zeta(2 * layer_len(k) - 1 - b);
        assert(p == 2 * len * b + jj) by (nonlinear_arith) requires p == (2 * len) * b + jj;
        if jj < len {
            lemma_block_index(b, len, jj + len);
            assert(p + len < 256) by (nonlinear_arith)
                requires p == 2 * len * b + jj, jj < len, 0 <= b, 2 * len * layer_len(k) == 256,
                    p < 256, jj >= 0, len >= 1;
            assert(canon(s[p]) == canon(c * t[p]));
            assert(canon(s[p + len]) == canon(c * t[p + len]));
            lemma_add_mod_noop(s[p], s[p + len], Q as int);
            lemma_add_mod_noop(c * t[p], c * t[p + len], Q as int);
            assert(c * (t[p] + t[p + len]) == c * t[p] + c * t[p + len]) by (nonlinear_arith);
        } else {
            lemma_block_index(b, len, jj - len);
            assert(canon(s[p]) == canon(c * t[p]));
            assert(canon(s[p - len]) == canon(c * t[p - len]));
            lemma_sub_mod_noop(s[p - len], s[p], Q as int);
            lemma_sub_mod_noop(c * t[p - len], c * t[p], Q as int);
            lemma_mul_mod_noop_right(z, s[p - len] - s[p], Q as int);
            lemma_mul_mod_noop_right(z, c * t[p - len] - c * t[p], Q as int);
            assert(z * (c * t[p - len] - c * t[p]) == c * (z * (t[p - len] - t[p]))) by (nonlinear_arith);
        }
    }
}

/// Congruence survives scaling.
proof fn lemma_cong_scale(a: Seq<int>, b: Seq<int>, c: int)
    requires
        cong(a, b),
    ensures
        cong(scale(a, c), scale(b, c)),
{
    assert forall|p: int| 0 <= p < 256 implies canon(#[trigger] scale(a, c)[p]) == canon(scale(b, c)[p]) by {
        assert(canon(a[p]) == canon(b[p]));
        lemma_mul_mod_noop_right(c, a[p], Q as int);
        lemma_mul_mod_noop_right(c, b[p], Q as int);
    }
}

proof fn lemma_fwd_layers_len(s: Seq<int>, n: nat)
    requires
        s.len() == 256,
    ensures
        fwd_layers(s, n).len() == 256,
    decreases n,
{
    if n > 0 {
        lemma_fwd_layers_len(s, (n - 1) as nat);
    }
}

proof fn lemma_inv_layers_len(s: Seq<int>, n: nat)
    requires
        s.len() == 256,
    ensures
        inv_layers(s, n).len() == 256,
    decreases n,
{
    if n > 0 {
        lemma_inv_layers_len(s, (n - 1) as nat);
    }
}

/// After n inverse layers, the forward transform of w is undone down to depth 8 - n,
/// up to the factor 2^n.
proof fn lemma_inv_layers_of_fwd(w: Seq<int>, y: Seq<int>, n: nat)
    requires
        w.len() == 256,
        y.len() == 256,
        cong(y, fwd_layers(w, 8)),
        n <= 8,
    ensures
        cong(inv_layers(y, n), scale(fwd_layers(w, (8 - n) as nat), layer_pow(n as int))),
    decreases n,
{
    lemma_fwd_layers_len(w, (8 - n) as nat);
    if n == 0 {
        assert forall|p: int| 0 <= p < 256 implies canon(#[trigger] inv_layers(y, 0)[p])
            == canon(scale(fwd_layers(w, 8), 1)[p]) by {
            assert(scale(fwd_layers(w, 8), 1)[p] == fwd_layers(w, 8)[p]);
        }
    } else {
        let k = (n - 1) as int;
        let e = 7 - k;
        lemma_inv_layers_of_fwd(w, y, (n - 1) as nat);
        lemma_inv_layers_len(y, (n - 1) as nat);
        lemma_fwd_layers_len(w, e as nat);
        let wd = fwd_layers(w, e as nat);
        assert(fwd_layers(w, (8 - k) as nat) == fwd_layer(wd, e));
        let c = layer_pow(k);
        lemma_inv_layer_cong_scale(inv_layers(y, k as nat), fwd_layer(wd, e), c, k);
        // inv_layer(fwd_layer(wd, e), k) is congruent to 2 * wd
        assert(cong(inv_layer(fwd_layer(wd, e), k), scale(wd, 2))) by {
            assert forall|p: int| 0 <= p < 256 implies canon(#[trigger] inv_layer(fwd_layer(wd, e), k)[p])
                == canon(scale(wd, 2)[p]) by {
                lemma_inv_undoes_fwd(wd, e, p);
            }
        }
        lemma_cong_scale(inv_layer(fwd_layer(wd, e), k), scale(wd, 2), c);
        lemma_layer_tables(k);
        assert forall|p: int| 0 <= p < 256 implies canon(#[trigger] inv_layers(y, n)[p])
            == canon(scale(wd, layer_pow(n as int))[p]) by {
            assert(canon(inv_layers(y, n)[p]) == canon(scale(inv_layer(fwd_layer(wd, e), k), c)[p]));
            assert(canon(scale(inv_layer(fwd_layer(wd, e), k), c)[p]) == canon(scale(scale(wd, 2), c)[p]));
            assert(scale(scale(wd, 2), c)[p] == layer_pow(n as int) * wd[p]) by (nonlinear_arith)
                requires scale(scale(wd, 2), c)[p] == c * (2 * wd[p]), layer_pow(n as int) == 2 * c;
        }
    }
}

/// The inverse transform undoes the forward transform: for every polynomial with
/// coefficients in [0, q), intt(ntt(w)) == w.
pub proof fn lemma_intt_ntt(w: Seq<int>)
    requires
        w.len() == 256,
        forall|p: int| 0 <= p < 256 ==> 0 <= #[trigger] w[p] < Q,
    ensures
        intt_spec(ntt_spec(w)) == w,
{
    let y = ntt_spec(w);
    lemma_fwd_layers_len(w, 8);
    assert(cong(y, fwd_layers(w, 8))) by {
        assert forall|p: int| 0 <= p < 256 implies canon(#[trigger] y[p]) == canon(fwd_layers(w, 8)[p]) by {
            lemma_mod_mod(fwd_layers(w, 8)[p], Q as int, 1);
        }
    }
    lemma_inv_layers_of_fwd(w, y, 8);
    assert forall|p: int| 0 <= p < 256 implies #[trigger] intt_spec(y)[p] == w[p] by {
        let v = inv_layers(y, 8)[p];
        assert(canon(v) == canon(256 * w[p]));
        lemma_mul_mod_noop_left(v, 8347681, Q as int);
        lemma_mul_mod_noop_left(256 * w[p], 8347681, Q as int);
        assert((256 * w[p]) * 8347681 == w[p] + 8380417 * (255 * w[p])) by (nonlinear_arith);
        lemma_mod_multiples_vanish(255 * w[p], w[p], Q as int);
        lemma_small_mod(w[p] as nat, Q as nat);
    }
    assert(intt_spec(y) =~= w);
}

/// The root of X^(256 / 2^d) - root(d, c) that block c at depth d of the forward transform
/// is reduced modulo: -1 at depth 0, then +zeta or -zeta of the parent butterfly.
pub open spec fn root(d: int, c: int) -> int {
    if d == 0 {
        Q - 1
    } else if c % 2 == 0 {
        zeta(layer_pow(d - 1) + c / 2)
    } else {
        Q - zeta(layer_pow(d - 1) + c / 2)
    }
}

/// The value q - 1 for index 1, and +-zeta(i / 2) otherwise: what zeta(i)^2 must be congruent to.
pub open spec fn zeta_square_target(i: int) -> int {
    if i == 1 { Q - 1 } else if i % 2 == 0 { zeta(i / 2) } else { Q - zeta(i / 2) }
}

spec fn zetas_squared(lo: int, hi: int) -> bool
    decreases hi - lo,
{
    if hi - lo <= 0 {
        true
    } else if hi - lo == 1 {
        canon(zeta(lo) * zeta(lo)) == zeta_square_target(lo)
    } else {
        zetas_squared(lo, lo + (hi - lo) / 2) && zetas_squared(lo + (hi - lo) / 2, hi)
    }
}

proof fn lemma_zetas_squared_all()
    by (nonlinear_arith)
    ensures
        zetas_squared(1, 256),
{
    reveal_with_fuel(zetas_squared, 10);
}

proof fn lemma_zetas_squared_at(lo: int, hi: int, i: int)
    requires
        zetas_squared(lo, hi),
        lo <= i < hi,
    ensures
        canon(zeta(i) * zeta(i)) == zeta_square_target(i),
    decreases hi - lo,
{
    if hi - lo > 1 {
        let mid = lo + (hi - lo) / 2;
        if i < mid {
            lemma_zetas_squared_at(lo, mid, i);
        } else {
            lemma_zetas_squared_at(mid, hi, i);
        }
    }
}

/// Each twiddle factor is a square root of the root of its block:
/// zeta(2^d + c)^2 = root(d, c) (mod q).
pub proof fn lemma_zeta_square(d: int, c: int)
    requires
        0 <= d < 8,
        0 <= c < layer_pow(d),
    ensures
        canon(zeta(layer_pow(d) + c) * zeta(layer_pow(d) + c)) == root(d, c),
{
    let i = layer_pow(d) + c;
    assert(1 <= i < 256);
    lemma_zetas_squared_all();
    lemma_zetas_squared_at(1, 256, i);
    if d > 0 {
        assert(i / 2 == layer_pow(d - 1) + c / 2);
        assert((i % 2 == 0) == (c % 2 == 0));
    }
}

/// sum over t < n of w[j + t * step] * r^t.
pub open spec fn wsum(w: Seq<int>, j: int, step: int, r: int, n: nat) -> int
    decreases n,
{
    if n == 0 { 0 } else { wsum(w, j, step, r, (n - 1) as nat) + w[j + (n - 1) * step] * pow(r, (n - 1) as nat) }
}

/// The value of the polynomial with coefficients w at x.
pub open spec fn poly_eval(w: Seq<int>, x: int) -> int {
    wsum(w, 0, 1, x, 256)
}

/// Splitting a sum into even and odd powers.
proof fn lemma_wsum_split(w: Seq<int>, j: int, step: int, r: int, n: nat)
    ensures
        wsum(w, j, step, r, 2 * n) == wsum(w, j, 2 * step, r * r, n) + r * wsum(w, j + step, 2 * step, r * r, n),
    decreases n,
{
    if n > 0 {
        let m = (n - 1) as nat;
        lemma_wsum_split(w, j, step, r, m);
        assert(wsum(w, j, step, r, 2 * n) == wsum(w, j, step, r, (2 * m + 1) as nat)
            + w[j + (2 * m + 1) * step] * pow(r, (2 * m + 1) as nat));
        assert(wsum(w, j, step, r, (2 * m + 1) as nat) == wsum(w, j, step, r, 2 * m)
            + w[j + (2 * m) * step] * pow(r, 2 * m));
        lemma_pow_multiplies(r, 2, m);
        lemma_square_is_pow2(r);
        assert(pow(r, 2) == r * r);
        assert(pow(r * r, m) == pow(r, 2 * m));
        lemma_pow_adds(r, 2 * m, 1);
        lemma_pow1(r);
        assert(pow(r, (2 * m + 1) as nat) == pow(r, 2 * m) * r);
        assert(j + (2 * m) * step == j + m * (2 * step)) by (nonlinear_arith);
        assert(j + (2 * m + 1) * step == (j + step) + m * (2 * step)) by (nonlinear_arith);
        let a = w[j + m * (2 * step)];
        let bb = w[(j + step) + m * (2 * step)];
        let pm = pow(r, 2 * m);
        assert(bb * (pm * r) == r * (bb * pm)) by (nonlinear_arith);
        assert(r * wsum(w, j + step, 2 * step, r * r, n) == r * wsum(w, j + step, 2 * step, r * r, m) + r * (bb * pm))
            by (nonlinear_arith)
            requires wsum(w, j + step, 2 * step, r * r, n) == wsum(w, j + step, 2 * step, r * r, m) + bb * pm;
    }
}

/// Congruent points give congruent sums.
pub(crate) proof fn lemma_wsum_cong(w: Seq<int>, j: int, step: int, r1: int, r2: int, n: nat)
    requires
        canon(r1) == canon(r2),
    ensures
        canon(wsum(w, j, step, r1, n)) == canon(wsum(w, j, step, r2, n)),
    decreases n,
{
    if n > 0 {
        let m = (n - 1) as nat;
        lemma_wsum_cong(w, j, step, r1, r2, m);
        lemma_pow_mod_noop(r1, m, Q as int);
        lemma_pow_mod_noop(r2, m, Q as int);
        let c = w[j + m * step];
        lemma_mul_mod_noop_right(c, pow(r1, m), Q as int);
        lemma_mul_mod_noop_right(c, pow(r2, m), Q as int);
        lemma_add_mod_noop(wsum(w, j, step, r1, m), c * pow(r1, m), Q as int);
        lemma_add_mod_noop(wsum(w, j, step, r2, m), c * pow(r2, m), Q as int);
    }
}

/// Size of a block at depth d.
pub open spec fn bsize(d: int) -> int {
    layer_pow(8 - d)
}

/// Coefficient j of w reduced modulo X^bsize(d) - root(d, c).
pub open spec fn bval(w: Seq<int>, d: int, c: int, j: int) -> int {
    wsum(w, j, bsize(d), root(d, c), layer_pow(d) as nat)
}

/// One depth of butterflies computes the reductions modulo the two factors
/// X^len - z and X^len + z of X^(2 len) - z^2.
proof fn lemma_fwd_step_eval(w: Seq<int>, d: int, b: int, jj: int, x: int, y: int)
    requires
        0 <= d < 8,
        0 <= b < layer_pow(d),
        0 <= jj < layer_len(d),
        canon(x) == canon(bval(w, d, b, jj)),
        canon(y) == canon(bval(w, d, b, jj + layer_len(d))),
    ensures
        canon(x + zeta(layer_pow(d) + b) * y) == canon(bval(w, d + 1, 2 * b, jj)),
        canon(x - zeta(layer_pow(d) + b) * y) == canon(bval(w, d + 1, 2 * b + 1, jj)),
{
    lemma_layer_tables(d);
    let len = layer_len(d);
    let z = zeta(layer_pow(d) + b);
    let n = layer_pow(d) as nat;
    assert(bsize(d) == 2 * len);
    assert(bsize(d + 1) == len);
    assert(layer_pow(d + 1) as nat == 2 * n);
    assert(root(d + 1, 2 * b) == z);
    assert(root(d + 1, 2 * b + 1) == Q - z);
    lemma_zeta_square(d, b);
    // positive half
    lemma_wsum_split(w, jj, len, z, n);
    lemma_wsum_cong(w, jj, 2 * len, z * z, root(d, b), n);
    lemma_wsum_cong(w, jj + len, 2 * len, z * z, root(d, b), n);
    let e1 = wsum(w, jj, 2 * len, z * z, n);
    let o1 = wsum(w, jj + len, 2 * len, z * z, n);
    lemma_mul_mod_noop_right(z, y, Q as int);
    lemma_mul_mod_noop_right(z, o1, Q as int);
    lemma_add_mod_noop(x, z * y, Q as int);
    lemma_add_mod_noop(e1, z * o1, Q as int);
    // negative half
    lemma_wsum_split(w, jj, len, -z, n);
    assert((-z) * (-z) == z * z) by (nonlinear_arith);
    assert((-z) * o1 == -(z * o1)) by (nonlinear_arith);
    lemma_sub_mod_noop(x, z * y, Q as int);
    lemma_sub_mod_noop(e1, z * o1, Q as int);
    assert(canon(Q - z) == canon(-z)) by {
        lemma_mod_add_multiples_vanish(-z, Q as int);
    }
    lemma_wsum_cong(w, jj, len, -z, Q - z, 2 * n);
}

/// Position p = 2 len b + jj of a block of size 2 len, seen in blocks of size len.
proof fn lemma_half_index(p: int, len: int, b: int, jj: int)
    requires
        len >= 1,
        b >= 0,
        0 <= jj < 2 * len,
        p == 2 * len * b + jj,
    ensures
        jj < len ==> p / len == 2 * b && p % len == jj,
        jj >= len ==> p / len == 2 * b + 1 && p % len == jj - len,
{
    if jj < len {
        assert(p == (2 * b) * len + jj) by (nonlinear_arith) requires p == 2 * len * b + jj;
        lemma_fundamental_div_mod_converse(p, len, 2 * b, jj);
    } else {
        assert(p == (2 * b + 1) * len + (jj - len)) by (nonlinear_arith) requires p == 2 * len * b + jj;
        lemma_fundamental_div_mod_converse(p, len, 2 * b + 1, jj - len);
    }
}

/// Position p split into its block b and offset jj at depth e.
proof fn lemma_depth_index(p: int, len: int, n: int) -> (bj: (int, int))
    requires
        len >= 1,
        n >= 1,
        2 * len * n == 256,
        0 <= p < 256,
    ensures
        bj.0 == p / (2 * len),
        bj.1 == p % (2 * len),
        0 <= bj.0 < n,
        0 <= bj.1 < 2 * len,
        p == 2 * len * bj.0 + bj.1,
        bj.1 < len ==> p + len < 256,
        bj.1 >= len ==> p - len >= 0,
{
    lemma_fundamental_div_mod(p, 2 * len);
    let b = p / (2 * len);
    let jj = p % (2 * len);
    assert(p == 2 * len * b + jj) by (nonlinear_arith) requires p == (2 * len) * b + jj;
    assert(0 <= b < n) by (nonlinear_arith)
        requires p == 2 * len * b + jj, 0 <= jj < 2 * len, 0 <= p < 256, 2 * len * n == 256, len >= 1;
    assert(jj < len ==> p + len < 256) by (nonlinear_arith)
        requires p == 2 * len * b + jj, 0 <= b < n, 2 * len * n == 256, jj >= 0, len >= 1;
    (b, jj)
}

/// After d depths, the forward state holds the reductions of w modulo the
/// factors X^bsize(d) - root(d, c) of X^256 + 1.
#[verifier::spinoff_prover]
#[verifier::rlimit(40)]
proof fn lemma_fwd_layers_eval(w: Seq<int>, d: int, p: int)
    requires
        w.len() == 256,
        0 <= d <= 8,
        0 <= p < 256,
    ensures
        canon(fwd_layers(w, d as nat)[p]) == canon(bval(w, d, p / bsize(d), p % bsize(d))),
    decreases d,
{
    if d == 0 {
        assert(bsize(0) == 256);
        lemma_small_mod(p as nat, 256);
        assert(p / 256 == 0);
        assert(bval(w, 0, 0, p) == w[p]) by {
            lemma_pow0(root(0, 0));
            assert(layer_pow(0) as nat == 1);
            assert(wsum(w, p, 256, root(0, 0), 1) == wsum(w, p, 256, root(0, 0), 0) + w[p + 0 * 256] * pow(root(0, 0), 0));
        }
    } else {
        let e = d - 1;
        lemma_layer_tables(e);
        let len = layer_len(e);
        lemma_fwd_layers_len(w, e as nat);
        let s = fwd_layers(w, e as nat);
        assert(fwd_layers(w, d as nat) == fwd_layer(s, e));
        let (b, jj) = lemma_depth_index(p, len, layer_pow(e));
        assert(bsize(e) == 2 * len && bsize(d) == len);
        lemma_half_index(p, len, b, jj);
        if jj < len {
            lemma_block_index(b, len, jj + len);
            assert(p + len == 2 * len * b + (jj + len));
            lemma_fwd_layers_eval(w, e, p);
            lemma_fwd_layers_eval(w, e, p + len);
            lemma_fwd_step_eval(w, e, b, jj, s[p], s[p + len]);
        } else {
            lemma_block_index(b, len, jj - len);
            assert(p - len == 2 * len * b + (jj - len));
            lemma_fwd_layers_eval(w, e, p);
            lemma_fwd_layers_eval(w, e, p - len);
            lemma_fwd_step_eval(w, e, b, jj - len, s[p - len], s[p]);
        }
    }
}

/// The NTT evaluates w at the 256 roots of X^256 + 1: coefficient c of ntt_spec(w)
/// is w(root(8, c)) mod q.
pub proof fn lemma_ntt_spec_eval(w: Seq<int>, c: int)
    requires
        w.len() == 256,
        0 <= c < 256,
    ensures
        ntt_spec(w)[c] == canon(poly_eval(w, root(8, c))),
{
    lemma_fwd_layers_eval(w, 8, c);
    assert(bsize(8) == 1);
    lemma_mod_mod(fwd_layers(w, 8)[c], Q as int, 1);
    lemma_mod_mod(bval(w, 8, c, 0), Q as int, 1);
}

/// Coefficient-wise sum of two sequences.
pub open spec fn seq_add(a: Seq<int>, b: Seq<int>) -> Seq<int> {
    Seq::new(256, |p: int| a[p] + b[p])
}

/// A forward depth maps a congruent sum to the congruent sum of the images.
proof fn lemma_fwd_layer_cong_add(s: Seq<int>, a: Seq<int>, b: Seq<int>, d: int)
    requires
        0 <= d < 8,
        s.len() == 256,
        a.len() == 256,
        b.len() == 256,
        cong(s, seq_add(a, b)),
    ensures
        cong(fwd_layer(s, d), seq_add(fwd_layer(a, d), fwd_layer(b, d))),
{
    lemma_layer_tables(d);
    let len = layer_len(d);
    assert forall|p: int| 0 <= p < 256 implies canon(#[trigger] fwd_layer(s, d)[p])
        == canon(seq_add(fwd_layer(a, d), fwd_layer(b, d))[p]) by {
        lemma_fundamental_div_mod(p, 2 * len);
        let bb = p / (2 * len);
        let jj = p % (2 * len);
        let z = zeta(layer_pow(d) + bb);
        assert(p == 2 * len * bb + jj) by (nonlinear_arith) requires p == (2 * len) * bb + jj;
        assert(0 <= bb < layer_pow(d)) by (nonlinear_arith)
            requires p == 2 * len * bb + jj, 0 <= jj < 2 * len, 0 <= p < 256, 2 * len * layer_pow(d) == 256, len >= 1;
        let (u, v) = if jj < len { (p, p + len) } else { (p - len, p) };
        if jj < len {
            assert(p + len < 256) by (nonlinear_arith)
                requires p == 2 * len * bb + jj, jj < len, 0 <= bb < layer_pow(d), 2 * len * layer_pow(d) == 256,
                    jj >= 0, len >= 1;
            lemma_block_index(bb, len, jj + len);
        } else {
            lemma_block_index(bb, len, jj - len);
        }
        assert(canon(s[u]) == canon(a[u] + b[u]));
        assert(canon(s[v]) == canon(a[v] + b[v]));
        lemma_mul_mod_noop_right(z, s[v], Q as int);
        lemma_mul_mod_noop_right(z, a[v] + b[v], Q as int);
        assert(z * (a[v] + b[v]) == z * a[v] + z * b[v]) by (nonlinear_arith);
        if jj < len {
            lemma_add_mod_noop(s[u], z * s[v], Q as int);
            lemma_add_mod_noop(a[u] + b[u], z * (a[v] + b[v]), Q as int);
        } else {
            lemma_sub_mod_noop(s[u], z * s[v], Q as int);
            lemma_sub_mod_noop(a[u] + b[u], z * (a[v] + b[v]), Q as int);
        }
    }
}

proof fn lemma_fwd_layers_cong_add(s: Seq<int>, a: Seq<int>, b: Seq<int>, n: nat)
    requires
        n <= 8,
        s.len() == 256,
        a.len() == 256,
        b.len() == 256,
        cong(s, seq_add(a, b)),
    ensures
        cong(fwd_layers(s, n), seq_add(fwd_layers(a, n), fwd_layers(b, n))),
    decreases n,
{
    if n > 0 {
        let m = (n - 1) as nat;
        lemma_fwd_layers_cong_add(s, a, b, m);
        lemma_fwd_layers_len(s, m);
        lemma_fwd_layers_len(a, m);
        lemma_fwd_layers_len(b, m);
        lemma_fwd_layer_cong_add(fwd_layers(s, m), fwd_layers(a, m), fwd_layers(b, m), m as int);
    }
}

/// The inverse transform only depends on its input modulo q.
pub(crate) proof fn lemma_intt_cong(y1: Seq<int>, y2: Seq<int>)
    requires
        y1.len() == 256,
        y2.len() == 256,
        cong(y1, y2),
    ensures
        intt_spec(y1) == intt_spec(y2),
{
    assert forall|n: nat| n <= 8 implies cong(#[trigger] inv_layers(y1, n), scale(inv_layers(y2, n), 1)) by {
        lemma_inv_layers_cong(y1, y2, n);
    }
    assert forall|p: int| 0 <= p < 256 implies #[trigger] intt_spec(y1)[p] == intt_spec(y2)[p] by {
        assert(canon(inv_layers(y1, 8)[p]) == canon(scale(inv_layers(y2, 8), 1)[p]));
    }
    assert(intt_spec(y1) =~= intt_spec(y2));
}

proof fn lemma_inv_layers_cong(y1: Seq<int>, y2: Seq<int>, n: nat)
    requires
        y1.len() == 256,
        y2.len() == 256,
        cong(y1, y2),
        n <= 8,
    ensures
        cong(inv_layers(y1, n), scale(inv_layers(y2, n), 1)),
    decreases n,
{
    lemma_inv_layers_len(y2, n);
    if n == 0 {
        assert forall|p: int| 0 <= p < 256 implies canon(#[trigger] inv_layers(y1, 0)[p])
            == canon(scale(inv_layers(y2, 0), 1)[p]) by {
            assert(scale(y2, 1)[p] == y2[p]);
        }
    } else {
        let m = (n - 1) as nat;
        lemma_inv_layers_cong(y1, y2, m);
        lemma_inv_layers_len(y1, m);
        lemma_inv_layers_len(y2, m);
        lemma_inv_layer_cong_scale(inv_layers(y1, m), inv_layers(y2, m), 1, m as int);
    }
}

/// Adding in the NTT domain adds the polynomials: for a and b with coefficients
/// in [0, q), intt(ntt(a) + ntt(b)) == (a + b) mod q coefficient-wise.
pub proof fn lemma_intt_ntt_add(a: Seq<int>, b: Seq<int>)
    requires
        a.len() == 256,
        b.len() == 256,
        forall|p: int| 0 <= p < 256 ==> 0 <= #[trigger] a[p] < Q,
        forall|p: int| 0 <= p < 256 ==> 0 <= #[trigger] b[p] < Q,
    ensures
        intt_spec(Seq::new(256, |c: int| canon(ntt_spec(a)[c] + ntt_spec(b)[c])))
            == Seq::new(256, |p: int| canon(a[p] + b[p])),
{
    let sum = Seq::new(256, |p: int| canon(a[p] + b[p]));
    let y = Seq::new(256, |c: int| canon(ntt_spec(a)[c] + ntt_spec(b)[c]));
    assert forall|p: int| 0 <= p < 256 implies 0 <= #[trigger] sum[p] < Q by {}
    lemma_intt_ntt(sum);
    assert(cong(sum, seq_add(a, b))) by {
        assert forall|p: int| 0 <= p < 256 implies canon(#[trigger] sum[p]) == canon(seq_add(a, b)[p]) by {
            lemma_mod_mod(a[p] + b[p], Q as int, 1);
        }
    }
    lemma_fwd_layers_cong_add(sum, a, b, 8);
    lemma_fwd_layers_len(a, 8);
    lemma_fwd_layers_len(b, 8);
    lemma_fwd_layers_len(sum, 8);
    assert(cong(y, ntt_spec(sum))) by {
        assert forall|c: int| 0 <= c < 256 implies canon(#[trigger] y[c]) == canon(ntt_spec(sum)[c]) by {
            let fa = fwd_layers(a, 8)[c];
            let fb = fwd_layers(b, 8)[c];
            let fs = fwd_layers(sum, 8)[c];
            assert(canon(fs) == canon(fa + fb));
            lemma_add_mod_noop(fa, fb, Q as int);
            lemma_mod_mod(canon(fa) + canon(fb), Q as int, 1);
            lemma_mod_mod(fs, Q as int, 1);
        }
    }
    lemma_intt_cong(y, ntt_spec(sum));
}

/// Depth e of the forward transform undoes layer 7 - e of the inverse transform, up to a factor 2.
proof fn lemma_fwd_undoes_inv(s: Seq<int>, e: int, p: int)
    requires
        s.len() == 256,
        0 <= e < 8,
        0 <= p < 256,
    ensures
        canon(fwd_layer(inv_layer(s, 7 - e), e)[p]) == canon(2 * s[p]),
{
    lemma_layer_tables(e);
    let len = layer_len(e);
    assert(layer_pow(7 - e) == len);
    assert(layer_len(7 - e) == layer_pow(e));
    let t = inv_layer(s, 7 - e);
    let (b, jj) = lemma_depth_index(p, len, layer_pow(e));
    let i = layer_pow(e) + b;
    let m = 2 * layer_pow(e) - 1 - b;
    assert(high_bit(i) == layer_pow(e));
    assert(inverse_partner(i) == m);
    lemma_zeta_pairing(i);
    let z = zeta(i);
    let zm = zeta(m);
    let w = z * zm;
    lemma_mod_neg_neg(w, Q as int);
    assert(canon(-w) == 1) by {
        lemma_sub_mod_noop(0, w, Q as int);
    }
    if jj < len {
        lemma_block_index(b, len, jj + len);
        assert(p + len == 2 * len * b + (jj + len));
        let a = s[p] + s[p + len];
        let d = s[p] - s[p + len];
        assert(t[p] == a);
        assert(t[p + len] == -zm * d);
        assert(fwd_layer(t, e)[p] == t[p] + z * t[p + len]);
        assert(z * (-zm * d) == (-w) * d) by (nonlinear_arith) requires w == z * zm;
        lemma_mul_mod_noop_left(-w, d, Q as int);
        lemma_mul_mod_noop_left(1, d, Q as int);
        lemma_add_mod_noop(a, (-w) * d, Q as int);
        lemma_add_mod_noop(a, d, Q as int);
    } else {
        lemma_block_index(b, len, jj - len);
        assert(p - len == 2 * len * b + (jj - len));
        let a = s[p - len] + s[p];
        let d = s[p - len] - s[p];
        assert(t[p - len] == a);
        assert(t[p] == -zm * d);
        assert(fwd_layer(t, e)[p] == t[p - len] - z * t[p]);
        assert(z * (-zm * d) == (-w) * d) by (nonlinear_arith) requires w == z * zm;
        lemma_mul_mod_noop_left(-w, d, Q as int);
        lemma_mul_mod_noop_left(1, d, Q as int);
        lemma_sub_mod_noop(a, (-w) * d, Q as int);
        lemma_sub_mod_noop(a, d, Q as int);
    }
}

/// A forward depth maps congruent, scaled inputs to congruent, scaled outputs.
proof fn lemma_fwd_layer_cong_scale(s: Seq<int>, t: Seq<int>, c: int, d: int)
    requires
        0 <= d < 8,
        s.len() == 256,
        t.len() == 256,
        cong(s, scale(t, c)),
    ensures
        cong(fwd_layer(s, d), scale(fwd_layer(t, d), c)),
{
    lemma_layer_tables(d);
    let len = layer_len(d);
    assert forall|p: int| 0 <= p < 256 implies canon(#[trigger] fwd_layer(s, d)[p])
        == canon(scale(fwd_layer(t, d), c)[p]) by {
        let (bb, jj) = lemma_depth_index(p, len, layer_pow(d));
        let z = zeta(layer_pow(d) + bb);
        let (u, v) = if jj < len { (p, p + len) } else { (p - len, p) };
        if jj < len {
            lemma_block_index(bb, len, jj + len);
            assert(p + len == 2 * len * bb + (jj + len));
        } else {
            lemma_block_index(bb, len, jj - len);
            assert(p - len == 2 * len * bb + (jj - len));
        }
        assert(canon(s[u]) == canon(c * t[u]));
        assert(canon(s[v]) == canon(c * t[v]));
        lemma_mul_mod_noop_right(z, s[v], Q as int);
        lemma_mul_mod_noop_right(z, c * t[v], Q as int);
        assert(z * (c * t[v]) == c * (z * t[v])) by (nonlinear_arith);
        assert(c * (t[u] + z * t[v]) == c * t[u] + c * (z * t[v])) by (nonlinear_arith);
        assert(c * (t[u] - z * t[v]) == c * t[u] - c * (z * t[v])) by (nonlinear_arith);
        if jj < len {
            lemma_add_mod_noop(s[u], z * s[v], Q as int);
            lemma_add_mod_noop(c * t[u], c * (z * t[v]), Q as int);
        } else {
            lemma_sub_mod_noop(s[u], z * s[v], Q as int);
            lemma_sub_mod_noop(c * t[u], c * (z * t[v]), Q as int);
        }
    }
}

/// The first n forward depths map congruent, scaled inputs to congruent, scaled outputs.
proof fn lemma_fwd_layers_cong_scale(s: Seq<int>, t: Seq<int>, c: int, n: nat)
    requires
        n <= 8,
        s.len() == 256,
        t.len() == 256,
        cong(s, scale(t, c)),
    ensures
        cong(fwd_layers(s, n), scale(fwd_layers(t, n), c)),
    decreases n,
{
    if n > 0 {
        let m = (n - 1) as nat;
        lemma_fwd_layers_cong_scale(s, t, c, m);
        lemma_fwd_layers_len(s, m);
        lemma_fwd_layers_len(t, m);
        lemma_fwd_layer_cong_scale(fwd_layers(s, m), fwd_layers(t, m), c, m as int);
    }
}

/// After n forward depths, the inverse transform of y is undone down to layer 8 - n,
/// up to the factor 2^n.
proof fn lemma_fwd_layers_of_inv(y: Seq<int>, n: nat)
    requires
        y.len() == 256,
        n <= 8,
    ensures
        cong(fwd_layers(inv_layers(y, 8), n), scale(inv_layers(y, (8 - n) as nat), layer_pow(n as int))),
    decreases n,
{
    let x = inv_layers(y, 8);
    lemma_inv_layers_len(y, 8);
    lemma_inv_layers_len(y, (8 - n) as nat);
    if n == 0 {
        assert forall|p: int| 0 <= p < 256 implies canon(#[trigger] fwd_layers(x, 0)[p])
            == canon(scale(inv_layers(y, 8), 1)[p]) by {
            assert(scale(inv_layers(y, 8), 1)[p] == inv_layers(y, 8)[p]);
        }
    } else {
        let e = (n - 1) as int;
        let k = 7 - e;
        lemma_fwd_layers_of_inv(y, (n - 1) as nat);
        lemma_fwd_layers_len(x, e as nat);
        lemma_inv_layers_len(y, k as nat);
        let v = inv_layers(y, k as nat);
        assert(inv_layers(y, (8 - e) as nat) == inv_layer(v, k));
        let c = layer_pow(e);
        lemma_fwd_layer_cong_scale(fwd_layers(x, e as nat), inv_layer(v, k), c, e);
        assert(cong(fwd_layer(inv_layer(v, k), e), scale(v, 2))) by {
            assert forall|p: int| 0 <= p < 256 implies canon(#[trigger] fwd_layer(inv_layer(v, k), e)[p])
                == canon(scale(v, 2)[p]) by {
                lemma_fwd_undoes_inv(v, e, p);
            }
        }
        lemma_cong_scale(fwd_layer(inv_layer(v, k), e), scale(v, 2), c);
        lemma_layer_tables(e);
        assert forall|p: int| 0 <= p < 256 implies canon(#[trigger] fwd_layers(x, n)[p])
            == canon(scale(v, layer_pow(n as int))[p]) by {
            assert(canon(fwd_layers(x, n)[p]) == canon(scale(fwd_layer(inv_layer(v, k), e), c)[p]));
            assert(canon(scale(fwd_layer(inv_layer(v, k), e), c)[p]) == canon(scale(scale(v, 2), c)[p]));
            assert(scale(scale(v, 2), c)[p] == layer_pow(n as int) * v[p]) by (nonlinear_arith)
                requires scale(scale(v, 2), c)[p] == c * (2 * v[p]), layer_pow(n as int) == 2 * c;
        }
    }
}

/// The forward transform undoes the inverse transform: for every sequence y of 256
/// integers, ntt(intt(y)) == y mod q coefficient-wise.
pub proof fn lemma_ntt_intt(y: Seq<int>)
    requires
        y.len() == 256,
    ensures
        ntt_spec(intt_spec(y)) == Seq::new(256, |p: int| canon(y[p])),
{
    let x = intt_spec(y);
    let v = inv_layers(y, 8);
    lemma_inv_layers_len(y, 8);
    assert(cong(x, scale(v, 8347681))) by {
        assert forall|p: int| 0 <= p < 256 implies canon(#[trigger] x[p]) == canon(scale(v, 8347681)[p]) by {
            lemma_mul_mod_noop_left(v[p], 8347681, Q as int);
            lemma_mod_mod(canon(v[p]) * 8347681, Q as int, 1);
            assert(v[p] * 8347681 == 8347681 * v[p]) by (nonlinear_arith);
        }
    }
    lemma_fwd_layers_cong_scale(x, v, 8347681, 8);
    lemma_fwd_layers_of_inv(y, 8);
    lemma_fwd_layers_len(v, 8);
    assert(inv_layers(y, 0) == y);
    lemma_cong_scale(fwd_layers(v, 8), scale(y, 256), 8347681);
    assert forall|p: int| 0 <= p < 256 implies #[trigger] ntt_spec(x)[p] == canon(y[p]) by {
        assert(canon(fwd_layers(x, 8)[p]) == canon(scale(fwd_layers(v, 8), 8347681)[p]));
        assert(canon(scale(fwd_layers(v, 8), 8347681)[p]) == canon(scale(scale(y, 256), 8347681)[p]));
        assert(scale(scale(y, 256), 8347681)[p] == y[p] + 8380417 * (255 * y[p])) by (nonlinear_arith)
            requires scale(scale(y, 256), 8347681)[p] == 8347681 * (256 * y[p]);
        lemma_mod_multiples_vanish(255 * y[p], y[p], Q as int);
        lemma_mod_mod(fwd_layers(x, 8)[p], Q as int, 1);
    }
    assert(ntt_spec(x) =~= Seq::new(256, |p: int| canon(y[p])));
}

} // verus!
