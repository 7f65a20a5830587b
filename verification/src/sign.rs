//! Decoding of private keys.
use vstd::prelude::*;
use vstd::arithmetic::power::{pow, lemma_pow_multiplies};
use crate::bits::{le_value, byte_ints, bit_packed, digits_below, field, lemma_le_value_prefix_step,
    lemma_radix_pairs, lemma_le_value_3, lemma_le_value_8, lemma_le_value_13, lemma_bit_packed_fields,
    lemma_bit_packed_own_fields, lemma_bit_packed_unique};
use crate::err::MlDsaError;
use crate::keypair::{eta_fields, t0_fields, key_gen_result, kg_s1, kg_s2, kg_t0, kg_samples_ok, kg_sk_matches,
    kg_rho_prime, bounded_sample, s_seed, lemma_bounded_sample_range, lemma_sk_from_segments};
use crate::params::{D, ETA, K, L, LEN_ETA_PACK_POLY, LEN_PRIVATE_KEY, LEN_PUBLIC_KEY, LEN_T0_PACK_POLY, N};

verus! {

/// 13 bytes read as 8 fields of base 8192, as `bit_unpack_t0` reads them.
proof fn lemma_t0_unpack_group(w0: u8, w1: u8, w2: u8, w3: u8, w4: u8, w5: u8, w6: u8, w7: u8, w8: u8, w9: u8, w10: u8, w11: u8, w12: u8)
    by (bit_vector)
    ensures
        0 <= ((w0 as i32) | ((w1 as i32) << 8i32)) & 0x1FFFi32 < 8192,
        0 <= (((w1 as i32) >> 5i32) | ((w2 as i32) << 3i32) | ((w3 as i32) << 11i32)) & 0x1FFFi32 < 8192,
        0 <= (((w3 as i32) >> 2i32) | ((w4 as i32) << 6i32)) & 0x1FFFi32 < 8192,
        0 <= (((w4 as i32) >> 7i32) | ((w5 as i32) << 1i32) | ((w6 as i32) << 9i32)) & 0x1FFFi32 < 8192,
        0 <= (((w6 as i32) >> 4i32) | ((w7 as i32) << 4i32) | ((w8 as i32) << 12i32)) & 0x1FFFi32 < 8192,
        0 <= (((w8 as i32) >> 1i32) | ((w9 as i32) << 7i32)) & 0x1FFFi32 < 8192,
        0 <= (((w9 as i32) >> 6i32) | ((w10 as i32) << 2i32) | ((w11 as i32) << 10i32)) & 0x1FFFi32 < 8192,
        0 <= (((w11 as i32) >> 3i32) | ((w12 as i32) << 5i32)) & 0x1FFFi32 < 8192,
        (((w0 as i32) | ((w1 as i32) << 8i32)) & 0x1FFFi32) as u128 * 0x1
        + ((((w1 as i32) >> 5i32) | ((w2 as i32) << 3i32) | ((w3 as i32) << 11i32)) & 0x1FFFi32) as u128 * 0x2000
        + ((((w3 as i32) >> 2i32) | ((w4 as i32) << 6i32)) & 0x1FFFi32) as u128 * 0x4000000
        + ((((w4 as i32) >> 7i32) | ((w5 as i32) << 1i32) | ((w6 as i32) << 9i32)) & 0x1FFFi32) as u128 * 0x8000000000
        + ((((w6 as i32) >> 4i32) | ((w7 as i32) << 4i32) | ((w8 as i32) << 12i32)) & 0x1FFFi32) as u128 * 0x10000000000000
        + ((((w8 as i32) >> 1i32) | ((w9 as i32) << 7i32)) & 0x1FFFi32) as u128 * 0x20000000000000000
        + ((((w9 as i32) >> 6i32) | ((w10 as i32) << 2i32) | ((w11 as i32) << 10i32)) & 0x1FFFi32) as u128 * 0x40000000000000000000
        + ((((w11 as i32) >> 3i32) | ((w12 as i32) << 5i32)) & 0x1FFFi32) as u128 * 0x80000000000000000000000
        == w0 as u128 * 0x1
        + w1 as u128 * 0x100
        + w2 as u128 * 0x10000
        + w3 as u128 * 0x1000000
        + w4 as u128 * 0x100000000
        + w5 as u128 * 0x10000000000
        + w6 as u128 * 0x1000000000000
        + w7 as u128 * 0x100000000000000
        + w8 as u128 * 0x10000000000000000
        + w9 as u128 * 0x1000000000000000000
        + w10 as u128 * 0x100000000000000000000
        + w11 as u128 * 0x10000000000000000000000
        + w12 as u128 * 0x1000000000000000000000000,
{
}

/// One iteration of `bit_unpack_t0` extends the unpacked prefix by one group.
proof fn lemma_t0_unpack_step(w: Seq<u8>, before: Seq<int>, after: Seq<int>, i: int, groups: int)
    requires
        w.len() == 13 * groups,
        before.len() == 8 * groups,
        after.len() == 8 * groups,
        0 <= i < groups,
        forall|k: int| 0 <= k < 8 * i ==> after[k] == before[k],
        le_value(byte_ints(w).subrange(0, 13 * i), 256) == le_value(before.subrange(0, 8 * i), 8192),
        after[8 * i + 0] == (((w[13 * i + 0] as i32) | ((w[13 * i + 1] as i32) << 8i32)) & 0x1FFFi32) as int,
        after[8 * i + 1] == ((((w[13 * i + 1] as i32) >> 5i32) | ((w[13 * i + 2] as i32) << 3i32) | ((w[13 * i + 3] as i32) << 11i32)) & 0x1FFFi32) as int,
        after[8 * i + 2] == ((((w[13 * i + 3] as i32) >> 2i32) | ((w[13 * i + 4] as i32) << 6i32)) & 0x1FFFi32) as int,
        after[8 * i + 3] == ((((w[13 * i + 4] as i32) >> 7i32) | ((w[13 * i + 5] as i32) << 1i32) | ((w[13 * i + 6] as i32) << 9i32)) & 0x1FFFi32) as int,
        after[8 * i + 4] == ((((w[13 * i + 6] as i32) >> 4i32) | ((w[13 * i + 7] as i32) << 4i32) | ((w[13 * i + 8] as i32) << 12i32)) & 0x1FFFi32) as int,
        after[8 * i + 5] == ((((w[13 * i + 8] as i32) >> 1i32) | ((w[13 * i + 9] as i32) << 7i32)) & 0x1FFFi32) as int,
        after[8 * i + 6] == ((((w[13 * i + 9] as i32) >> 6i32) | ((w[13 * i + 10] as i32) << 2i32) | ((w[13 * i + 11] as i32) << 10i32)) & 0x1FFFi32) as int,
        after[8 * i + 7] == ((((w[13 * i + 11] as i32) >> 3i32) | ((w[13 * i + 12] as i32) << 5i32)) & 0x1FFFi32) as int,
    ensures
        le_value(byte_ints(w).subrange(0, 13 * (i + 1)), 256) == le_value(after.subrange(0, 8 * (i + 1)), 8192),
        forall|m: int| 0 <= m < 8 ==> 0 <= #[trigger] after[8 * i + m] < 8192,
{
    assert(after.subrange(0, 8 * i) =~= before.subrange(0, 8 * i));
    let gb = byte_ints(w).subrange(13 * i, 13 * i + 13);
    let gv = after.subrange(8 * i, 8 * i + 8);
    lemma_le_value_13(gb, 256);
    lemma_le_value_8(gv, 8192);
    lemma_t0_unpack_group(w[13 * i + 0], w[13 * i + 1], w[13 * i + 2], w[13 * i + 3], w[13 * i + 4], w[13 * i + 5], w[13 * i + 6], w[13 * i + 7], w[13 * i + 8], w[13 * i + 9], w[13 * i + 10], w[13 * i + 11], w[13 * i + 12]);
    lemma_radix_pairs();
    lemma_le_value_prefix_step(byte_ints(w), 256, 13, after, 8192, 8, i);
    assert forall|m: int| 0 <= m < 8 implies 0 <= #[trigger] after[8 * i + m] < 8192 by {
        if m == 0 {} else if m == 1 {} else if m == 2 {} else if m == 3 {} else if m == 4 {} else if m == 5 {} else if m == 6 {} else if m == 7 {}
    }
}

/// 3 bytes read as 8 fields of base 8, as `bit_unpack_eta` reads them.
proof fn lemma_eta_unpack_group(w0: u8, w1: u8, w2: u8)
    by (bit_vector)
    ensures
        0 <= ((w0 >> 0u8) & 7u8) < 8,
        0 <= ((w0 >> 3u8) & 7u8) < 8,
        0 <= (((w0 >> 6u8) | (w1 << 2u8)) & 7u8) < 8,
        0 <= ((w1 >> 1u8) & 7u8) < 8,
        0 <= ((w1 >> 4u8) & 7u8) < 8,
        0 <= (((w1 >> 7u8) | (w2 << 1u8)) & 7u8) < 8,
        0 <= ((w2 >> 2u8) & 7u8) < 8,
        0 <= ((w2 >> 5u8) & 7u8) < 8,
        (((w0 >> 0u8) & 7u8)) as u128 * 0x1
        + (((w0 >> 3u8) & 7u8)) as u128 * 0x8
        + ((((w0 >> 6u8) | (w1 << 2u8)) & 7u8)) as u128 * 0x40
        + (((w1 >> 1u8) & 7u8)) as u128 * 0x200
        + (((w1 >> 4u8) & 7u8)) as u128 * 0x1000
        + ((((w1 >> 7u8) | (w2 << 1u8)) & 7u8)) as u128 * 0x8000
        + (((w2 >> 2u8) & 7u8)) as u128 * 0x40000
        + (((w2 >> 5u8) & 7u8)) as u128 * 0x200000
        == w0 as u128 * 0x1
        + w1 as u128 * 0x100
        + w2 as u128 * 0x10000,
{
}

/// One iteration of `bit_unpack_eta` extends the unpacked prefix by one group.
proof fn lemma_eta_unpack_step(w: Seq<u8>, before: Seq<int>, after: Seq<int>, i: int, groups: int)
    requires
        w.len() == 3 * groups,
        before.len() == 8 * groups,
        after.len() == 8 * groups,
        0 <= i < groups,
        forall|k: int| 0 <= k < 8 * i ==> after[k] == before[k],
        le_value(byte_ints(w).subrange(0, 3 * i), 256) == le_value(before.subrange(0, 8 * i), 8),
        after[8 * i + 0] == (((w[3 * i + 0] >> 0u8) & 7u8)) as int,
        after[8 * i + 1] == (((w[3 * i + 0] >> 3u8) & 7u8)) as int,
        after[8 * i + 2] == ((((w[3 * i + 0] >> 6u8) | (w[3 * i + 1] << 2u8)) & 7u8)) as int,
        after[8 * i + 3] == (((w[3 * i + 1] >> 1u8) & 7u8)) as int,
        after[8 * i + 4] == (((w[3 * i + 1] >> 4u8) & 7u8)) as int,
        after[8 * i + 5] == ((((w[3 * i + 1] >> 7u8) | (w[3 * i + 2] << 1u8)) & 7u8)) as int,
        after[8 * i + 6] == (((w[3 * i + 2] >> 2u8) & 7u8)) as int,
        after[8 * i + 7] == (((w[3 * i + 2] >> 5u8) & 7u8)) as int,
    ensures
        le_value(byte_ints(w).subrange(0, 3 * (i + 1)), 256) == le_value(after.subrange(0, 8 * (i + 1)), 8),
        forall|m: int| 0 <= m < 8 ==> 0 <= #[trigger] after[8 * i + m] < 8,
{
    assert(after.subrange(0, 8 * i) =~= before.subrange(0, 8 * i));
    let gb = byte_ints(w).subrange(3 * i, 3 * i + 3);
    let gv = after.subrange(8 * i, 8 * i + 8);
    lemma_le_value_3(gb, 256);
    lemma_le_value_8(gv, 8);
    lemma_eta_unpack_group(w[3 * i + 0], w[3 * i + 1], w[3 * i + 2]);
    lemma_radix_pairs();
    lemma_le_value_prefix_step(byte_ints(w), 256, 3, after, 8, 8, i);
    assert forall|m: int| 0 <= m < 8 implies 0 <= #[trigger] after[8 * i + m] < 8 by {
        if m == 0 {} else if m == 1 {} else if m == 2 {} else if m == 3 {} else if m == 4 {} else if m == 5 {} else if m == 6 {} else if m == 7 {}
    }
}

/// 2^(D-1), the offset of the coefficients of t0 in their 13-bit fields.
pub const TWO_POW_D_MINUS_1: i32 = 4096;

/// Whether l <= v <= h.
pub fn inclusive(l: i32, h: i32, v: i32) -> (r: bool)
    requires
        h < i32::MAX,
    ensures
        r == (l <= v && v <= h),
{
    l <= v && v < h + 1
}

/// Unpacks 416 bytes into a polynomial with coefficients in ]-2^(D-1), 2^(D-1)]:
/// coefficient k is 2^(D-1) minus the k-th 13-bit field of the little-endian bit string.
/// Every 13-bit field gives a coefficient in range, so this always succeeds.
#[verifier::spinoff_prover]
pub fn bit_unpack_t0(w: &[u8; LEN_T0_PACK_POLY], t: &mut [i32; 256]) -> (r: Result<(), MlDsaError>)
    ensures
        r is Ok,
        bit_packed(w@, t0_fields(final(t)@), 8192),
        forall|k: int| 0 <= k < 256 ==> (#[trigger] final(t)@[k]) as int == 4096 - field(w@, k, 8192),
        forall|k: int| 0 <= k < 256 ==> -4096 < #[trigger] final(t)@[k] <= 4096,
{
    let ghost wb = w@;
    let mut ok = true;
    assert(byte_ints(w@).subrange(0, 0) =~= Seq::<int>::empty());
    assert(t0_fields(t@).subrange(0, 0) =~= Seq::<int>::empty());
    for i in 0..N / 8
        invariant
            wb == w@,
            le_value(byte_ints(w@).subrange(0, 13 * i), 256) == le_value(t0_fields(t@).subrange(0, 8 * i), 8192),
            forall|k: int| 0 <= k < 8 * i ==> 0 <= #[trigger] t0_fields(t@)[k] < 8192,
    {
        let ghost before = t0_fields(t@);
        let w0 = ((w[13 * i + 0] as i32) | ((w[13 * i + 1] as i32) << 8)) & 0x1FFF;
        let w1 = (((w[13 * i + 1] as i32) >> 5) | ((w[13 * i + 2] as i32) << 3) | ((w[13 * i + 3] as i32) << 11)) & 0x1FFF;
        let w2 = (((w[13 * i + 3] as i32) >> 2) | ((w[13 * i + 4] as i32) << 6)) & 0x1FFF;
        let w3 = (((w[13 * i + 4] as i32) >> 7) | ((w[13 * i + 5] as i32) << 1) | ((w[13 * i + 6] as i32) << 9)) & 0x1FFF;
        let w4 = (((w[13 * i + 6] as i32) >> 4) | ((w[13 * i + 7] as i32) << 4) | ((w[13 * i + 8] as i32) << 12)) & 0x1FFF;
        let w5 = (((w[13 * i + 8] as i32) >> 1) | ((w[13 * i + 9] as i32) << 7)) & 0x1FFF;
        let w6 = (((w[13 * i + 9] as i32) >> 6) | ((w[13 * i + 10] as i32) << 2) | ((w[13 * i + 11] as i32) << 10)) & 0x1FFF;
        let w7 = (((w[13 * i + 11] as i32) >> 3) | ((w[13 * i + 12] as i32) << 5)) & 0x1FFF;
        proof {
            let ii = i as int;
            lemma_t0_unpack_group(w@[13 * ii + 0], w@[13 * ii + 1], w@[13 * ii + 2], w@[13 * ii + 3], w@[13 * ii + 4],
                w@[13 * ii + 5], w@[13 * ii + 6], w@[13 * ii + 7], w@[13 * ii + 8], w@[13 * ii + 9], w@[13 * ii + 10],
                w@[13 * ii + 11], w@[13 * ii + 12]);
        }
        t[8 * i + 0] = TWO_POW_D_MINUS_1 - w0;
        t[8 * i + 1] = TWO_POW_D_MINUS_1 - w1;
        t[8 * i + 2] = TWO_POW_D_MINUS_1 - w2;
        t[8 * i + 3] = TWO_POW_D_MINUS_1 - w3;
        t[8 * i + 4] = TWO_POW_D_MINUS_1 - w4;
        t[8 * i + 5] = TWO_POW_D_MINUS_1 - w5;
        t[8 * i + 6] = TWO_POW_D_MINUS_1 - w6;
        t[8 * i + 7] = TWO_POW_D_MINUS_1 - w7;
        proof {
            let ii = i as int;
            let after = t0_fields(t@);
            assert(forall|k: int| 0 <= k < 8 * ii ==> after[k] == before[k]);
            lemma_t0_unpack_step(w@, before, after, ii, 32);
        }
    }
    let ghost vals = t0_fields(t@);
    assert(byte_ints(w@).subrange(0, 416) =~= byte_ints(w@));
    assert(vals.subrange(0, 256) =~= vals);
    proof { lemma_bit_packed_fields(w@, vals, 8192); }
    for i in 0..N
        invariant
            ok,
            vals == t0_fields(t@),
            bit_packed(w@, vals, 8192),
            forall|k: int| 0 <= k < 256 ==> #[trigger] vals[k] == field(w@, k, 8192),
            forall|k: int| 0 <= k < 256 ==> 0 <= #[trigger] vals[k] < 8192,
    {
        assert(0 <= vals[i as int] < 8192);
        let in_range = inclusive(-TWO_POW_D_MINUS_1 + 1, TWO_POW_D_MINUS_1, t[i]);
        ok = ok && in_range;
    }
    proof {
        assert forall|k: int| 0 <= k < 256 implies (#[trigger] t@[k]) as int == 4096 - field(w@, k, 8192)
            && -4096 < t@[k] <= 4096 by {
            assert(vals[k] == 4096 - t@[k] as int);
        }
    }
    if ok {
        Ok(())
    } else {
        Err(MlDsaError::MalformedShortVector)
    }
}

/// Whether v lies in [-ETA, ETA].
pub open spec fn eta_in_range(v: i32) -> bool {
    -2 <= v <= 2
}

/// The positions that the range check of `bit_unpack_eta` visits in group i: 2i+1, 2i+2, 2i+5, 2i+7.
pub open spec fn eta_group_checked(s: Seq<i32>, i: int) -> bool {
    eta_in_range(s[2 * i + 1]) && eta_in_range(s[2 * i + 2]) && eta_in_range(s[2 * i + 5]) && eta_in_range(s[2 * i + 7])
}

/// The range check of `bit_unpack_eta` over all 32 groups.
pub open spec fn eta_checked(s: Seq<i32>) -> bool {
    forall|i: int| 0 <= i < 32 ==> #[trigger] eta_group_checked(s, i)
}

/// Extending the range check by group i, once group i has been written.
proof fn lemma_eta_ok_update(sb: Seq<i32>, s: Seq<i32>, i: int, old_ok: bool, cur: bool)
    requires
        sb.len() == 256,
        s.len() == 256,
        0 <= i < 32,
        forall|k: int| 0 <= k < 8 * i ==> s[k] == sb[k],
        old_ok == forall|g: int| 0 <= g < i ==> #[trigger] eta_group_checked(sb, g),
        cur == eta_group_checked(s, i),
    ensures
        (old_ok && cur) == forall|g: int| 0 <= g < i + 1 ==> #[trigger] eta_group_checked(s, g),
{
    assert forall|g: int| 0 <= g < i implies #[trigger] eta_group_checked(s, g) == eta_group_checked(sb, g) by {
        assert(s[2 * g + 1] == sb[2 * g + 1] && s[2 * g + 2] == sb[2 * g + 2]);
        assert(s[2 * g + 5] == sb[2 * g + 5] && s[2 * g + 7] == sb[2 * g + 7]);
    }
    if old_ok && cur {
        assert forall|g: int| 0 <= g < i + 1 implies #[trigger] eta_group_checked(s, g) by {
            if g < i {
                assert(eta_group_checked(sb, g));
            }
        }
    } else if old_ok {
        assert(!eta_group_checked(s, i));
    } else {
        let g0 = choose|g: int| 0 <= g < i && !#[trigger] eta_group_checked(sb, g);
        assert(!eta_group_checked(s, g0));
    }
}

/// Unpacks 96 bytes into a polynomial: coefficient k is ETA minus the k-th 3-bit field
/// of the little-endian bit string. The result is an error when one of the coefficients
/// that the range check visits (positions 2i+1, 2i+2, 2i+5 and 2i+7 for i < 32) lies
/// outside [-ETA, ETA]; coefficients at other positions are not checked.
#[verifier::spinoff_prover]
pub fn bit_unpack_eta(w: &[u8; LEN_ETA_PACK_POLY], s: &mut [i32; 256]) -> (r: Result<(), MlDsaError>)
    ensures
        bit_packed(w@, eta_fields(final(s)@), 8),
        forall|k: int| 0 <= k < 256 ==> (#[trigger] final(s)@[k]) as int == 2 - field(w@, k, 8),
        r is Ok <==> eta_checked(final(s)@),
        r is Err ==> r == Err::<(), MlDsaError>(MlDsaError::MalformedShortVector),
{
    let eta = ETA as i32;
    let mut ok = true;
    assert(byte_ints(w@).subrange(0, 0) =~= Seq::<int>::empty());
    assert(eta_fields(s@).subrange(0, 0) =~= Seq::<int>::empty());
    for i in 0..N / 8
        invariant
            eta == 2,
            le_value(byte_ints(w@).subrange(0, 3 * i), 256) == le_value(eta_fields(s@).subrange(0, 8 * i), 8),
            forall|k: int| 0 <= k < 8 * i ==> 0 <= #[trigger] eta_fields(s@)[k] < 8,
            ok == forall|g: int| 0 <= g < i ==> #[trigger] eta_group_checked(s@, g),
    {
        let ghost before = eta_fields(s@);
        let ghost sb = s@;
        let w0 = ((w[3 * i + 0] >> 0) & 7) as i32;
        let w1 = ((w[3 * i + 0] >> 3) & 7) as i32;
        let w2 = (((w[3 * i + 0] >> 6) | (w[3 * i + 1] << 2)) & 7) as i32;
        let w3 = ((w[3 * i + 1] >> 1) & 7) as i32;
        let w4 = ((w[3 * i + 1] >> 4) & 7) as i32;
        let w5 = (((w[3 * i + 1] >> 7) | (w[3 * i + 2] << 1)) & 7) as i32;
        let w6 = ((w[3 * i + 2] >> 2) & 7) as i32;
        let w7 = ((w[3 * i + 2] >> 5) & 7) as i32;
        proof {
            let ii = i as int;
            lemma_eta_unpack_group(w@[3 * ii + 0], w@[3 * ii + 1], w@[3 * ii + 2]);
        }
        s[8 * i + 0] = eta - w0;
        s[8 * i + 1] = eta - w1;
        s[8 * i + 2] = eta - w2;
        s[8 * i + 3] = eta - w3;
        s[8 * i + 4] = eta - w4;
        s[8 * i + 5] = eta - w5;
        s[8 * i + 6] = eta - w6;
        s[8 * i + 7] = eta - w7;
        proof {
            let ii = i as int;
            let after = eta_fields(s@);
            assert(forall|k: int| 0 <= k < 8 * ii ==> after[k] == before[k]);
            lemma_eta_unpack_step(w@, before, after, ii, 32);
        }
        let c0 = inclusive(-eta, eta, s[2 * i + 1]);
        let c1 = inclusive(-eta, eta, s[2 * i + 1]);
        let c2 = inclusive(-eta, eta, s[2 * i + 2]);
        let c3 = inclusive(-eta, eta, s[2 * i + 1]);
        let c4 = inclusive(-eta, eta, s[2 * i + 5]);
        let c5 = inclusive(-eta, eta, s[2 * i + 1]);
        let c6 = inclusive(-eta, eta, s[2 * i + 7]);
        let c7 = inclusive(-eta, eta, s[2 * i + 1]);
        proof {
            assert((c0 && c1 && c2 && c3 && c4 && c5 && c6 && c7) == eta_group_checked(s@, i as int));
            lemma_eta_ok_update(sb, s@, i as int, ok, c0 && c1 && c2 && c3 && c4 && c5 && c6 && c7);
        }
        ok = ok && (c0 && c1 && c2 && c3 && c4 && c5 && c6 && c7);
    }
    let ghost vals = eta_fields(s@);
    assert(byte_ints(w@).subrange(0, 96) =~= byte_ints(w@));
    assert(vals.subrange(0, 256) =~= vals);
    proof {
        lemma_bit_packed_fields(w@, vals, 8);
        assert forall|k: int| 0 <= k < 256 implies (#[trigger] s@[k]) as int == 2 - field(w@, k, 8) by {
            assert(vals[k] == 2 - s@[k] as int);
        }
    }
    if ok {
        Ok(())
    } else {
        Err(MlDsaError::MalformedShortVector)
    }
}

/// The coefficients that `bit_unpack_eta` decodes from 96 bytes.
pub open spec fn eta_decoded(bytes: Seq<u8>) -> Seq<i32> {
    Seq::new(256, |k: int| (2 - field(bytes, k, 8)) as i32)
}

/// The coefficients that `bit_unpack_t0` decodes from 416 bytes.
pub open spec fn t0_decoded(bytes: Seq<u8>) -> Seq<i32> {
    Seq::new(256, |k: int| (4096 - field(bytes, k, 8192)) as i32)
}

/// Offset of the i-th packed polynomial of s1 (i < L) or s2 (L <= i < L + K) in a private key.
pub open spec fn sk_eta_offset(i: int) -> int {
    128 + 96 * i
}

/// Offset of the i-th packed polynomial of t0 in a private key.
pub open spec fn sk_t0_offset(i: int) -> int {
    128 + 96 * 8 + 416 * i
}

/// Every packed short polynomial of the private key passes the range check of `bit_unpack_eta`.
pub open spec fn sk_eta_ok(sk: Seq<u8>) -> bool {
    forall|i: int| 0 <= i < 8 ==> #[trigger] eta_checked(eta_decoded(sk.subrange(sk_eta_offset(i), sk_eta_offset(i) + 96)))
}

/// Bytes [start, start + M) of a private key.
fn sk_slice<const M: usize>(sk: &[u8; LEN_PRIVATE_KEY], start: usize) -> (r: [u8; M])
    requires
        start + M <= 2560,
    ensures
        r@ == sk@.subrange(start as int, start + M),
{
    let mut r = [0u8; M];
    for k in 0..M
        invariant
            start + M <= 2560,
            r@.len() == M,
            forall|j: int| 0 <= j < k ==> r@[j] == sk@[start + j],
    {
        r[k] = sk[start + k];
    }
    assert(r@ =~= sk@.subrange(start as int, start + M));
    r
}

/// Unpacks one short polynomial of a private key.
fn sk_eta_poly(sk: &[u8; LEN_PRIVATE_KEY], i: usize) -> (r: Result<[i32; 256], MlDsaError>)
    requires
        i < 8,
    ensures
        r is Ok <==> eta_checked(eta_decoded(sk@.subrange(sk_eta_offset(i as int), sk_eta_offset(i as int) + 96))),
        r is Err ==> r == Err::<[i32; 256], MlDsaError>(MlDsaError::MalformedShortVector),
        r matches Ok(p) ==> p@ == eta_decoded(sk@.subrange(sk_eta_offset(i as int), sk_eta_offset(i as int) + 96)),
{
    let t: [u8; LEN_ETA_PACK_POLY] = sk_slice(sk, 128 + i * LEN_ETA_PACK_POLY);
    let mut p = [0i32; 256];
    let res = bit_unpack_eta(&t, &mut p);
    assert(p@ =~= eta_decoded(t@));
    match res {
        Ok(()) => Ok(p),
        Err(e) => Err(e),
    }
}

/// The range check of a private key covers all L + K = 8 packed short polynomials: those
/// of s1 at bytes 128 + 96 i and those of s2 at bytes 512 + 96 i, for i < 4.
pub proof fn lemma_sk_eta_ok_covers_s1_and_s2(sk: Seq<u8>)
    ensures
        sk_eta_ok(sk) <==> (
            (forall|i: int| 0 <= i < 4 ==> #[trigger] eta_checked(eta_decoded(sk.subrange(128 + 96 * i, 224 + 96 * i))))
            && (forall|i: int| 0 <= i < 4 ==> #[trigger] eta_checked(eta_decoded(sk.subrange(512 + 96 * i, 608 + 96 * i))))),
{
    if sk_eta_ok(sk) {
        assert forall|i: int| 0 <= i < 4 implies #[trigger] eta_checked(eta_decoded(sk.subrange(512 + 96 * i, 608 + 96 * i))) by {
            assert(sk_eta_offset(4 + i) == 512 + 96 * i);
            assert(eta_checked(eta_decoded(sk.subrange(sk_eta_offset(4 + i), sk_eta_offset(4 + i) + 96))));
        }
        assert forall|i: int| 0 <= i < 4 implies #[trigger] eta_checked(eta_decoded(sk.subrange(128 + 96 * i, 224 + 96 * i))) by {
            assert(eta_checked(eta_decoded(sk.subrange(sk_eta_offset(i), sk_eta_offset(i) + 96))));
        }
    }
    if (forall|i: int| 0 <= i < 4 ==> #[trigger] eta_checked(eta_decoded(sk.subrange(128 + 96 * i, 224 + 96 * i))))
        && (forall|i: int| 0 <= i < 4 ==> #[trigger] eta_checked(eta_decoded(sk.subrange(512 + 96 * i, 608 + 96 * i)))) {
        assert forall|i: int| 0 <= i < 8 implies #[trigger] eta_checked(eta_decoded(sk.subrange(sk_eta_offset(i), sk_eta_offset(i) + 96))) by {
            if i < 4 {
                assert(eta_checked(eta_decoded(sk.subrange(128 + 96 * i, 224 + 96 * i))));
            } else {
                let j = i - 4;
                assert(eta_checked(eta_decoded(sk.subrange(512 + 96 * j, 608 + 96 * j))));
                assert(sk_eta_offset(i) == 512 + 96 * j);
            }
        }
    }
}

/// Decodes a private key into rho, K, tr, s1, s2 and t0.
///
/// The result is an error, `MalformedShortVector`, exactly when one of the packed
/// short polynomials fails the range check of `bit_unpack_eta`.
pub fn sk_decode(sk: &[u8; LEN_PRIVATE_KEY]) -> (r: Result<([u8; 32], [u8; 32], [u8; 64], [[i32; 256]; L], [[i32; 256]; K], [[i32; 256]; K]), MlDsaError>)
    ensures
        r is Ok <==> sk_eta_ok(sk@),
        r is Err ==> r matches Err(MlDsaError::MalformedShortVector),
        (exists|i: int| 0 <= i < 4 && !#[trigger] eta_checked(eta_decoded(sk@.subrange(128 + 96 * i, 224 + 96 * i))))
            ==> r is Err,
        (exists|i: int| 0 <= i < 4 && !#[trigger] eta_checked(eta_decoded(sk@.subrange(512 + 96 * i, 608 + 96 * i))))
            ==> r is Err,
        r matches Ok((rho, key, tr, s1, s2, t0)) ==> forall|i: int| 0 <= i < 4
            ==> eta_checked((#[trigger] s1@[i])@) && eta_checked(s2@[i]@),
        r matches Ok((rho, key, tr, s1, s2, t0)) ==> {
            &&& rho@ == sk@.subrange(0, 32)
            &&& key@ == sk@.subrange(32, 64)
            &&& tr@ == sk@.subrange(64, 128)
            &&& forall|i: int| 0 <= i < 4 ==> (#[trigger] s1@[i])@
                == eta_decoded(sk@.subrange(sk_eta_offset(i), sk_eta_offset(i) + 96))
            &&& forall|i: int| 0 <= i < 4 ==> (#[trigger] s2@[i])@
                == eta_decoded(sk@.subrange(sk_eta_offset(4 + i), sk_eta_offset(4 + i) + 96))
            &&& forall|i: int| 0 <= i < 4 ==> (#[trigger] t0@[i])@
                == t0_decoded(sk@.subrange(sk_t0_offset(i), sk_t0_offset(i) + 416))
        },
{
    proof { lemma_sk_eta_ok_covers_s1_and_s2(sk@); }
    let rho: [u8; 32] = sk_slice(sk, 0);
    let key: [u8; 32] = sk_slice(sk, 32);
    let tr: [u8; 64] = sk_slice(sk, 64);

    let mut s1 = [[0i32; 256]; L];
    for i in 0..L
        invariant
            forall|j: int| 0 <= j < i ==> eta_checked(#[trigger] eta_decoded(sk@.subrange(sk_eta_offset(j), sk_eta_offset(j) + 96))),
            forall|j: int| 0 <= j < i ==> (#[trigger] s1@[j])@
                == eta_decoded(sk@.subrange(sk_eta_offset(j), sk_eta_offset(j) + 96)),
    {
        match sk_eta_poly(sk, i) {
            Ok(p) => { s1[i] = p; },
            Err(e) => {
                assert(!sk_eta_ok(sk@));
                return Err(e);
            },
        }
    }

    let mut s2 = [[0i32; 256]; K];
    for i in 0..K
        invariant
            forall|j: int| 0 <= j < 4 + i ==> eta_checked(#[trigger] eta_decoded(sk@.subrange(sk_eta_offset(j), sk_eta_offset(j) + 96))),
            forall|j: int| 0 <= j < 4 ==> (#[trigger] s1@[j])@
                == eta_decoded(sk@.subrange(sk_eta_offset(j), sk_eta_offset(j) + 96)),
            forall|j: int| 0 <= j < i ==> (#[trigger] s2@[j])@
                == eta_decoded(sk@.subrange(sk_eta_offset(4 + j), sk_eta_offset(4 + j) + 96)),
    {
        match sk_eta_poly(sk, L + i) {
            Ok(p) => { s2[i] = p; },
            Err(e) => {
                assert(!sk_eta_ok(sk@));
                return Err(e);
            },
        }
    }

    let mut t0 = [[0i32; 256]; K];
    for i in 0..K
        invariant
            sk_eta_ok(sk@),
            forall|j: int| 0 <= j < 4 ==> (#[trigger] s1@[j])@
                == eta_decoded(sk@.subrange(sk_eta_offset(j), sk_eta_offset(j) + 96)),
            forall|j: int| 0 <= j < 4 ==> (#[trigger] s2@[j])@
                == eta_decoded(sk@.subrange(sk_eta_offset(4 + j), sk_eta_offset(4 + j) + 96)),
            forall|j: int| 0 <= j < i ==> (#[trigger] t0@[j])@
                == t0_decoded(sk@.subrange(sk_t0_offset(j), sk_t0_offset(j) + 416)),
    {
        let t: [u8; LEN_T0_PACK_POLY] = sk_slice(sk, 128 + (L + K) * LEN_ETA_PACK_POLY + i * LEN_T0_PACK_POLY);
        let mut p = [0i32; 256];
        let _ = bit_unpack_t0(&t, &mut p);
        assert(p@ =~= t0_decoded(t@));
        t0[i] = p;
    }
    Ok((rho, key, tr, s1, s2, t0))
}

/// Fields of 3 bits that hold 2 - v decode to v.
proof fn lemma_eta_decoded_fields(bytes: Seq<u8>, v: Seq<int>)
    requires
        v.len() == 256,
        bit_packed(bytes, Seq::new(256, |k: int| 2 - v[k]), 8),
    ensures
        forall|k: int| 0 <= k < 256 ==> (#[trigger] eta_decoded(bytes)[k]) as int == v[k],
{
    let vals = Seq::new(256, |k: int| 2 - v[k]);
    lemma_bit_packed_fields(bytes, vals, 8);
    assert forall|k: int| 0 <= k < 256 implies (#[trigger] eta_decoded(bytes)[k]) as int == v[k] by {
        assert(vals[k] == field(bytes, k, 8));
        assert(0 <= vals[k] < 8);
    }
}

/// Fields of 13 bits that hold 4096 - v decode to v.
proof fn lemma_t0_decoded_fields(bytes: Seq<u8>, v: Seq<int>)
    requires
        v.len() == 256,
        bit_packed(bytes, Seq::new(256, |k: int| 4096 - v[k]), 8192),
    ensures
        forall|k: int| 0 <= k < 256 ==> (#[trigger] t0_decoded(bytes)[k]) as int == v[k],
{
    let vals = Seq::new(256, |k: int| 4096 - v[k]);
    lemma_bit_packed_fields(bytes, vals, 8192);
    assert forall|k: int| 0 <= k < 256 implies (#[trigger] t0_decoded(bytes)[k]) as int == v[k] by {
        assert(vals[k] == field(bytes, k, 8192));
        assert(0 <= vals[k] < 8192);
    }
}

/// A polynomial with coefficients in [-ETA, ETA] passes the range check.
proof fn lemma_eta_checked_in_range(s: Seq<i32>)
    requires
        s.len() == 256,
        forall|k: int| 0 <= k < 256 ==> -2 <= #[trigger] s[k] <= 2,
    ensures
        eta_checked(s),
{
    assert forall|i: int| 0 <= i < 32 implies #[trigger] eta_group_checked(s, i) by {
        assert(-2 <= s[2 * i + 1] <= 2 && -2 <= s[2 * i + 2] <= 2);
        assert(-2 <= s[2 * i + 5] <= 2 && -2 <= s[2 * i + 7] <= 2);
    }
}

/// Unpacking undoes packing for short polynomials: the 96 bytes that `bit_pack_eta`
/// produces from w, with coefficients in [-ETA, ETA], decode to w and pass the range check.
pub proof fn lemma_eta_unpack_pack(bytes: Seq<u8>, w: Seq<i32>)
    requires
        w.len() == 256,
        forall|k: int| 0 <= k < 256 ==> -2 <= #[trigger] w[k] <= 2,
        bit_packed(bytes, eta_fields(w), 8),
    ensures
        eta_decoded(bytes) == w,
        eta_checked(eta_decoded(bytes)),
{
    let v = Seq::new(256, |k: int| w[k] as int);
    assert(Seq::new(256, |k: int| 2 - v[k]) =~= eta_fields(w));
    lemma_eta_decoded_fields(bytes, v);
    assert(eta_decoded(bytes) =~= w);
    lemma_eta_checked_in_range(w);
}

/// Unpacking undoes packing for t0: the 416 bytes that `bit_pack_t0` produces from t,
/// with coefficients in ]-2^(D-1), 2^(D-1)], decode to t.
pub proof fn lemma_t0_unpack_pack(bytes: Seq<u8>, t: Seq<i32>)
    requires
        t.len() == 256,
        forall|k: int| 0 <= k < 256 ==> -4096 < #[trigger] t[k] <= 4096,
        bit_packed(bytes, t0_fields(t), 8192),
    ensures
        t0_decoded(bytes) == t,
{
    let v = Seq::new(256, |k: int| t[k] as int);
    assert(Seq::new(256, |k: int| 4096 - v[k]) =~= t0_fields(t));
    lemma_t0_decoded_fields(bytes, v);
    assert(t0_decoded(bytes) =~= t);
}

/// Packing undoes unpacking for short polynomials: when every 3-bit field of 96 bytes is
/// at most 2 ETA, the decoded coefficients lie in [-ETA, ETA] and the 96 bytes that
/// `bit_pack_eta` produces from them are the bytes decoded.
pub proof fn lemma_eta_pack_unpack(bytes: Seq<u8>, r: Seq<u8>)
    requires
        bytes.len() == 96,
        r.len() == 96,
        forall|k: int| 0 <= k < 256 ==> #[trigger] field(bytes, k, 8) <= 4,
        bit_packed(r, eta_fields(eta_decoded(bytes)), 8),
    ensures
        forall|k: int| 0 <= k < 256 ==> -2 <= #[trigger] eta_decoded(bytes)[k] <= 2,
        r == bytes,
{
    lemma_radix_pairs();
    lemma_pow_multiplies(256, 3, 32);
    lemma_pow_multiplies(8, 8, 32);
    assert(pow(256, bytes.len()) == pow(8, 256));
    lemma_bit_packed_own_fields(bytes, 8, 256);
    let own = Seq::new(256, |k: int| field(bytes, k, 8));
    assert forall|k: int| 0 <= k < 256 implies 0 <= #[trigger] own[k] < 8 by {
        assert(digits_below(own, 8));
    }
    assert(eta_fields(eta_decoded(bytes)) =~= own);
    lemma_bit_packed_unique(r, bytes, own, 8);
}

/// Packing undoes unpacking for t0: the 416 bytes that `bit_pack_t0` produces from the
/// coefficients decoded from any 416 bytes are those bytes.
pub proof fn lemma_t0_pack_unpack(bytes: Seq<u8>, r: Seq<u8>)
    requires
        bytes.len() == 416,
        r.len() == 416,
        bit_packed(r, t0_fields(t0_decoded(bytes)), 8192),
    ensures
        forall|k: int| 0 <= k < 256 ==> -4096 < #[trigger] t0_decoded(bytes)[k] <= 4096,
        r == bytes,
{
    lemma_radix_pairs();
    lemma_pow_multiplies(256, 13, 32);
    lemma_pow_multiplies(8192, 8, 32);
    assert(pow(256, bytes.len()) == pow(8192, 256));
    lemma_bit_packed_own_fields(bytes, 8192, 256);
    let own = Seq::new(256, |k: int| field(bytes, k, 8192));
    assert forall|k: int| 0 <= k < 256 implies 0 <= #[trigger] own[k] < 8192 by {
        assert(digits_below(own, 8192));
    }
    assert(t0_fields(t0_decoded(bytes)) =~= own);
    lemma_bit_packed_unique(r, bytes, own, 8192);
}

/// Decoding undoes encoding: a private key that `sk_encode` produces from rho, K, tr,
/// s1, s2 (coefficients in [-ETA, ETA]) and t0 (coefficients in ]-2^(D-1), 2^(D-1)])
/// decodes successfully, to exactly those parts.
pub proof fn lemma_sk_decode_encode(sk: [u8; LEN_PRIVATE_KEY], rho: [u8; 32], key: [u8; 32], tr: [u8; 64],
    s1: [[i32; 256]; L], s2: [[i32; 256]; K], t0: [[i32; 256]; K])
    requires
        forall|i: int, p: int| 0 <= i < 4 && 0 <= p < 256 ==> -2 <= #[trigger] s1@[i]@[p] <= 2,
        forall|i: int, p: int| 0 <= i < 4 && 0 <= p < 256 ==> -2 <= #[trigger] s2@[i]@[p] <= 2,
        forall|i: int, p: int| 0 <= i < 4 && 0 <= p < 256 ==> -4096 < #[trigger] t0@[i]@[p] <= 4096,
        sk@.subrange(0, 32) == rho@,
        sk@.subrange(32, 64) == key@,
        sk@.subrange(64, 128) == tr@,
        forall|i: int| 0 <= i < 4 ==> bit_packed(#[trigger] sk@.subrange(sk_eta_offset(i), sk_eta_offset(i) + 96),
            eta_fields(s1@[i]@), 8),
        forall|i: int| 0 <= i < 4 ==> bit_packed(#[trigger] sk@.subrange(sk_eta_offset(4 + i), sk_eta_offset(4 + i) + 96),
            eta_fields(s2@[i]@), 8),
        forall|i: int| 0 <= i < 4 ==> bit_packed(#[trigger] sk@.subrange(sk_t0_offset(i), sk_t0_offset(i) + 416),
            t0_fields(t0@[i]@), 8192),
    ensures
        sk_eta_ok(sk@),
        sk@.subrange(0, 32) == rho@,
        sk@.subrange(32, 64) == key@,
        sk@.subrange(64, 128) == tr@,
        forall|i: int| 0 <= i < 4 ==> eta_decoded(#[trigger] sk@.subrange(sk_eta_offset(i), sk_eta_offset(i) + 96)) == s1@[i]@,
        forall|i: int| 0 <= i < 4 ==> eta_decoded(#[trigger] sk@.subrange(sk_eta_offset(4 + i), sk_eta_offset(4 + i) + 96)) == s2@[i]@,
        forall|i: int| 0 <= i < 4 ==> t0_decoded(#[trigger] sk@.subrange(sk_t0_offset(i), sk_t0_offset(i) + 416)) == t0@[i]@,
{
    assert forall|i: int| 0 <= i < 4 implies eta_decoded(#[trigger] sk@.subrange(sk_eta_offset(i), sk_eta_offset(i) + 96)) == s1@[i]@
        && eta_checked(eta_decoded(sk@.subrange(sk_eta_offset(i), sk_eta_offset(i) + 96))) by {
        assert(forall|p: int| 0 <= p < 256 ==> -2 <= #[trigger] s1@[i]@[p] <= 2);
        lemma_eta_unpack_pack(sk@.subrange(sk_eta_offset(i), sk_eta_offset(i) + 96), s1@[i]@);
    }
    assert forall|i: int| 0 <= i < 4 implies eta_decoded(#[trigger] sk@.subrange(sk_eta_offset(4 + i), sk_eta_offset(4 + i) + 96)) == s2@[i]@
        && eta_checked(eta_decoded(sk@.subrange(sk_eta_offset(4 + i), sk_eta_offset(4 + i) + 96))) by {
        assert(forall|p: int| 0 <= p < 256 ==> -2 <= #[trigger] s2@[i]@[p] <= 2);
        lemma_eta_unpack_pack(sk@.subrange(sk_eta_offset(4 + i), sk_eta_offset(4 + i) + 96), s2@[i]@);
    }
    assert forall|i: int| 0 <= i < 4 implies t0_decoded(#[trigger] sk@.subrange(sk_t0_offset(i), sk_t0_offset(i) + 416)) == t0@[i]@ by {
        assert(forall|p: int| 0 <= p < 256 ==> -4096 < #[trigger] t0@[i]@[p] <= 4096);
        lemma_t0_unpack_pack(sk@.subrange(sk_t0_offset(i), sk_t0_offset(i) + 416), t0@[i]@);
    }
    assert forall|i: int| 0 <= i < 8 implies #[trigger] eta_checked(eta_decoded(sk@.subrange(sk_eta_offset(i), sk_eta_offset(i) + 96))) by {
        if i >= 4 {
            let j = i - 4;
            assert(sk_eta_offset(i) == sk_eta_offset(4 + j));
        }
    }
}

/// Encoding undoes decoding: when every 3-bit field of the packed short polynomials of a
/// private key is at most 2 ETA, the parts that `sk_decode` returns are in range for
/// `sk_encode`, and the private key that `sk_encode` produces from them is the one decoded.
pub proof fn lemma_sk_encode_decode(sk: [u8; LEN_PRIVATE_KEY], rho: [u8; 32], key: [u8; 32], tr: [u8; 64],
    s1: [[i32; 256]; L], s2: [[i32; 256]; K], t0: [[i32; 256]; K], r: [u8; LEN_PRIVATE_KEY])
    requires
        forall|i: int, k: int| 0 <= i < 8 && 0 <= k < 256 ==>
            #[trigger] field(sk@.subrange(sk_eta_offset(i), sk_eta_offset(i) + 96), k, 8) <= 4,
        rho@ == sk@.subrange(0, 32),
        key@ == sk@.subrange(32, 64),
        tr@ == sk@.subrange(64, 128),
        forall|i: int| 0 <= i < 4 ==> (#[trigger] s1@[i])@ == eta_decoded(sk@.subrange(sk_eta_offset(i), sk_eta_offset(i) + 96)),
        forall|i: int| 0 <= i < 4 ==> (#[trigger] s2@[i])@ == eta_decoded(sk@.subrange(sk_eta_offset(4 + i), sk_eta_offset(4 + i) + 96)),
        forall|i: int| 0 <= i < 4 ==> (#[trigger] t0@[i])@ == t0_decoded(sk@.subrange(sk_t0_offset(i), sk_t0_offset(i) + 416)),
        r@.subrange(0, 32) == rho@,
        r@.subrange(32, 64) == key@,
        r@.subrange(64, 128) == tr@,
        forall|i: int| 0 <= i < 4 ==> bit_packed(#[trigger] r@.subrange(sk_eta_offset(i), sk_eta_offset(i) + 96),
            eta_fields(s1@[i]@), 8),
        forall|i: int| 0 <= i < 4 ==> bit_packed(#[trigger] r@.subrange(sk_eta_offset(4 + i), sk_eta_offset(4 + i) + 96),
            eta_fields(s2@[i]@), 8),
        forall|i: int| 0 <= i < 4 ==> bit_packed(#[trigger] r@.subrange(sk_t0_offset(i), sk_t0_offset(i) + 416),
            t0_fields(t0@[i]@), 8192),
    ensures
        forall|i: int, p: int| 0 <= i < 4 && 0 <= p < 256 ==> -2 <= #[trigger] s1@[i]@[p] <= 2,
        forall|i: int, p: int| 0 <= i < 4 && 0 <= p < 256 ==> -2 <= #[trigger] s2@[i]@[p] <= 2,
        forall|i: int, p: int| 0 <= i < 4 && 0 <= p < 256 ==> -4096 < #[trigger] t0@[i]@[p] <= 4096,
        r == sk,
{
    assert forall|i: int| 0 <= i < 8 implies #[trigger] r@.subrange(sk_eta_offset(i), sk_eta_offset(i) + 96)
        == sk@.subrange(sk_eta_offset(i), sk_eta_offset(i) + 96)
        && forall|p: int| 0 <= p < 256 ==> -2 <= #[trigger] eta_decoded(sk@.subrange(sk_eta_offset(i), sk_eta_offset(i) + 96))[p] <= 2 by {
        let bytes = sk@.subrange(sk_eta_offset(i), sk_eta_offset(i) + 96);
        assert(forall|k: int| 0 <= k < 256 ==> #[trigger] field(bytes, k, 8) <= 4);
        if i < 4 {
            assert(eta_fields(s1@[i]@) == eta_fields(eta_decoded(bytes)));
        } else {
            let j = i - 4;
            assert(sk_eta_offset(i) == sk_eta_offset(4 + j));
            assert(s2@[j]@ == eta_decoded(bytes));
            assert(bit_packed(r@.subrange(sk_eta_offset(4 + j), sk_eta_offset(4 + j) + 96), eta_fields(s2@[j]@), 8));
        }
        lemma_eta_pack_unpack(bytes, r@.subrange(sk_eta_offset(i), sk_eta_offset(i) + 96));
    }
    assert forall|i: int| 0 <= i < 4 implies #[trigger] r@.subrange(sk_t0_offset(i), sk_t0_offset(i) + 416)
        == sk@.subrange(sk_t0_offset(i), sk_t0_offset(i) + 416)
        && forall|p: int| 0 <= p < 256 ==> -4096 < #[trigger] t0_decoded(sk@.subrange(sk_t0_offset(i), sk_t0_offset(i) + 416))[p] <= 4096 by {
        lemma_t0_pack_unpack(sk@.subrange(sk_t0_offset(i), sk_t0_offset(i) + 416), r@.subrange(sk_t0_offset(i), sk_t0_offset(i) + 416));
    }
    assert forall|i: int, p: int| 0 <= i < 4 && 0 <= p < 256 implies -2 <= #[trigger] s2@[i]@[p] <= 2 by {
        assert(sk_eta_offset(4 + i) == sk_eta_offset(i + 4));
        assert(r@.subrange(sk_eta_offset(4 + i), sk_eta_offset(4 + i) + 96) == sk@.subrange(sk_eta_offset(4 + i), sk_eta_offset(4 + i) + 96));
    }
    assert forall|i: int, p: int| 0 <= i < 4 && 0 <= p < 256 implies -2 <= #[trigger] s1@[i]@[p] <= 2 by {
        assert(r@.subrange(sk_eta_offset(i), sk_eta_offset(i) + 96) == sk@.subrange(sk_eta_offset(i), sk_eta_offset(i) + 96));
    }
    assert forall|i: int, p: int| 0 <= i < 4 && 0 <= p < 256 implies -4096 < #[trigger] t0@[i]@[p] <= 4096 by {
        assert(r@.subrange(sk_t0_offset(i), sk_t0_offset(i) + 416) == sk@.subrange(sk_t0_offset(i), sk_t0_offset(i) + 416));
    }
    lemma_sk_from_segments(r, sk);
}

/// The i-th short polynomial of a generated private key.
proof fn lemma_keygen_eta_poly(xi: Seq<u8>, pk: [u8; LEN_PUBLIC_KEY], sk: [u8; LEN_PRIVATE_KEY], i: int)
    requires
        key_gen_result(xi, Ok((pk, sk))),
        0 <= i < 8,
    ensures
        eta_checked(eta_decoded(sk@.subrange(sk_eta_offset(i), sk_eta_offset(i) + 96))),
        forall|p: int| 0 <= p < 256 ==> (#[trigger] eta_decoded(sk@.subrange(sk_eta_offset(i), sk_eta_offset(i) + 96))[p]) as int
            == (if i < 4 { kg_s1(xi, i)[p] } else { kg_s2(xi, i - 4)[p] }),
{
    assert(kg_samples_ok(xi));
    assert(kg_sk_matches(sk@, pk@, xi));
    let bytes = sk@.subrange(sk_eta_offset(i), sk_eta_offset(i) + 96);
    let v = if i < 4 { kg_s1(xi, i) } else { kg_s2(xi, i - 4) };
    assert(bounded_sample(s_seed(kg_rho_prime(xi), i)) is Some);
    lemma_bounded_sample_range(s_seed(kg_rho_prime(xi), i));
    if i >= 4 {
        assert(sk_eta_offset(i) == sk_eta_offset(4 + (i - 4)));
    }
    lemma_eta_decoded_fields(bytes, v);
    let s = eta_decoded(bytes);
    assert forall|k: int| 0 <= k < 256 implies -2 <= #[trigger] s[k] <= 2 by {
        assert(s[k] as int == v[k]);
    }
    lemma_eta_checked_in_range(s);
}

/// A generated private key decodes: when key generation from the seed xi succeeds, its
/// private key passes every range check of `sk_decode`, and decodes to the vectors s1, s2
/// and t0 of the key generation of xi.
pub proof fn lemma_keygen_sk_decodes(xi: Seq<u8>, pk: [u8; LEN_PUBLIC_KEY], sk: [u8; LEN_PRIVATE_KEY])
    requires
        key_gen_result(xi, Ok((pk, sk))),
    ensures
        sk_eta_ok(sk@),
        forall|i: int, p: int| 0 <= i < 4 && 0 <= p < 256 ==>
            (#[trigger] eta_decoded(sk@.subrange(sk_eta_offset(i), sk_eta_offset(i) + 96))[p]) as int == kg_s1(xi, i)[p],
        forall|i: int, p: int| 0 <= i < 4 && 0 <= p < 256 ==>
            (#[trigger] eta_decoded(sk@.subrange(sk_eta_offset(4 + i), sk_eta_offset(4 + i) + 96))[p]) as int == kg_s2(xi, i)[p],
        forall|i: int, p: int| 0 <= i < 4 && 0 <= p < 256 ==>
            (#[trigger] t0_decoded(sk@.subrange(sk_t0_offset(i), sk_t0_offset(i) + 416))[p]) as int == kg_t0(xi, i)[p],
{
    assert(kg_sk_matches(sk@, pk@, xi));
    assert forall|i: int| 0 <= i < 8 implies #[trigger] eta_checked(eta_decoded(sk@.subrange(sk_eta_offset(i), sk_eta_offset(i) + 96))) by {
        lemma_keygen_eta_poly(xi, pk, sk, i);
    }
    assert forall|i: int, p: int| 0 <= i < 4 && 0 <= p < 256 implies
        (#[trigger] eta_decoded(sk@.subrange(sk_eta_offset(i), sk_eta_offset(i) + 96))[p]) as int == kg_s1(xi, i)[p] by {
        lemma_keygen_eta_poly(xi, pk, sk, i);
    }
    assert forall|i: int, p: int| 0 <= i < 4 && 0 <= p < 256 implies
        (#[trigger] eta_decoded(sk@.subrange(sk_eta_offset(4 + i), sk_eta_offset(4 + i) + 96))[p]) as int == kg_s2(xi, i)[p] by {
        lemma_keygen_eta_poly(xi, pk, sk, 4 + i);
    }
    assert forall|i: int, p: int| 0 <= i < 4 && 0 <= p < 256 implies
        (#[trigger] t0_decoded(sk@.subrange(sk_t0_offset(i), sk_t0_offset(i) + 416))[p]) as int == kg_t0(xi, i)[p] by {
        lemma_t0_decoded_fields(sk@.subrange(sk_t0_offset(i), sk_t0_offset(i) + 416), kg_t0(xi, i));
    }
}

} // verus!
