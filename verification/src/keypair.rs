//! Key generation: sampling of the matrix A and the secret vectors from SHAKE output,
//! Power2Round, and the bit packing of public and private keys.
use vstd::prelude::*;
use vstd::arithmetic::power::pow;
use crate::bits::{le_value, byte_ints, bit_packed, digits_below, digits_of, lemma_byte_ints_below, lemma_le_value_digit, lemma_le_value_prefix_step, lemma_radix_pairs,
    lemma_le_value_3, lemma_le_value_4, lemma_le_value_5, lemma_le_value_8, lemma_le_value_13, lemma_bit_packed_unique};
use crate::err::MlDsaError;
use crate::ntt::{canon, ntt, ntt_add, ntt_inverse, ntt_multiply, ntt_spec, intt_spec, ints};
use crate::sign::{sk_eta_offset, sk_t0_offset};
use crate::xof::{fill_random, shake128, shake256, shake128_prefix, shake256_prefix, shake128_stream, shake256_stream};
use crate::params::{D, ETA, K, L, LEN_ETA_PACK_POLY, LEN_PRIVATE_KEY, LEN_PUBLIC_KEY, LEN_T0_PACK_POLY, N, Q};

verus! {

/// Eight 13-bit fields packed into 13 bytes, as `bit_pack_t0` writes them.
proof fn lemma_t0_pack_group(t0: i32, t1: i32, t2: i32, t3: i32, t4: i32, t5: i32, t6: i32, t7: i32)
    by (bit_vector)
    requires
        0 <= t0 < 8192, 0 <= t1 < 8192, 0 <= t2 < 8192, 0 <= t3 < 8192,
        0 <= t4 < 8192, 0 <= t5 < 8192, 0 <= t6 < 8192, 0 <= t7 < 8192,
    ensures
        (t0 as u8) as u128
        + (((t0 >> 8i32) | (t1 << 5i32)) as u8) as u128 * 0x100
        + ((t1 >> 3i32) as u8) as u128 * 0x1_0000
        + (((t1 >> 11i32) | (t2 << 2i32)) as u8) as u128 * 0x100_0000
        + (((t2 >> 6i32) | (t3 << 7i32)) as u8) as u128 * 0x1_0000_0000
        + ((t3 >> 1i32) as u8) as u128 * 0x100_0000_0000
        + (((t3 >> 9i32) | (t4 << 4i32)) as u8) as u128 * 0x1_0000_0000_0000
        + ((t4 >> 4i32) as u8) as u128 * 0x100_0000_0000_0000
        + (((t4 >> 12i32) | (t5 << 1i32)) as u8) as u128 * 0x1_0000_0000_0000_0000
        + (((t5 >> 7i32) | (t6 << 6i32)) as u8) as u128 * 0x100_0000_0000_0000_0000
        + ((t6 >> 2i32) as u8) as u128 * 0x1_0000_0000_0000_0000_0000
        + (((t6 >> 10i32) | (t7 << 3i32)) as u8) as u128 * 0x100_0000_0000_0000_0000_0000
        + ((t7 >> 5i32) as u8) as u128 * 0x1_0000_0000_0000_0000_0000_0000
        == t0 as u128 + t1 as u128 * 0x2000 + t2 as u128 * 0x400_0000 + t3 as u128 * 0x80_0000_0000
        + t4 as u128 * 0x10_0000_0000_0000 + t5 as u128 * 0x2_0000_0000_0000_0000
        + t6 as u128 * 0x4000_0000_0000_0000_0000 + t7 as u128 * 0x800_0000_0000_0000_0000_0000,
{
}

/// The bytes that `bit_pack_t0` writes for group i hold the group's fields.
proof fn lemma_t0_pack_group_value(r: Seq<u8>, i: int, t: Seq<i32>, vals: Seq<int>)
    requires
        r.len() == 416,
        vals.len() == 256,
        0 <= i < 32,
        t.len() == 8,
        forall|m: int| 0 <= m < 8 ==> 0 <= #[trigger] t[m] < 8192 && vals[8 * i + m] == t[m] as int,
        r[13 * i + 0] == t[0] as u8,
        r[13 * i + 1] == ((t[0] >> 8i32) | (t[1] << 5i32)) as u8,
        r[13 * i + 2] == (t[1] >> 3i32) as u8,
        r[13 * i + 3] == ((t[1] >> 11i32) | (t[2] << 2i32)) as u8,
        r[13 * i + 4] == ((t[2] >> 6i32) | (t[3] << 7i32)) as u8,
        r[13 * i + 5] == (t[3] >> 1i32) as u8,
        r[13 * i + 6] == ((t[3] >> 9i32) | (t[4] << 4i32)) as u8,
        r[13 * i + 7] == (t[4] >> 4i32) as u8,
        r[13 * i + 8] == ((t[4] >> 12i32) | (t[5] << 1i32)) as u8,
        r[13 * i + 9] == ((t[5] >> 7i32) | (t[6] << 6i32)) as u8,
        r[13 * i + 10] == (t[6] >> 2i32) as u8,
        r[13 * i + 11] == ((t[6] >> 10i32) | (t[7] << 3i32)) as u8,
        r[13 * i + 12] == (t[7] >> 5i32) as u8,
    ensures
        le_value(byte_ints(r).subrange(13 * i, 13 * i + 13), 256) == le_value(vals.subrange(8 * i, 8 * i + 8), 8192),
{
    let gb = byte_ints(r).subrange(13 * i, 13 * i + 13);
    let gv = vals.subrange(8 * i, 8 * i + 8);
    lemma_le_value_13(gb, 256);
    lemma_le_value_8(gv, 8192);
    assert(0 <= t[0] < 8192 && 0 <= t[1] < 8192 && 0 <= t[2] < 8192 && 0 <= t[3] < 8192);
    assert(0 <= t[4] < 8192 && 0 <= t[5] < 8192 && 0 <= t[6] < 8192 && 0 <= t[7] < 8192);
    lemma_t0_pack_group(t[0], t[1], t[2], t[3], t[4], t[5], t[6], t[7]);
}

/// One iteration of `bit_pack_t0` extends the packed prefix by one group.
proof fn lemma_t0_pack_step(before: Seq<u8>, r: Seq<u8>, i: int, t: Seq<i32>, vals: Seq<int>)
    requires
        r.len() == 416,
        before.len() == 416,
        vals.len() == 256,
        0 <= i < 32,
        t.len() == 8,
        forall|k: int| 0 <= k < 13 * i ==> r[k] == before[k],
        le_value(byte_ints(before).subrange(0, 13 * i), 256) == le_value(vals.subrange(0, 8 * i), 8192),
        forall|m: int| 0 <= m < 8 ==> 0 <= #[trigger] t[m] < 8192 && vals[8 * i + m] == t[m] as int,
        r[13 * i + 0] == t[0] as u8,
        r[13 * i + 1] == ((t[0] >> 8i32) | (t[1] << 5i32)) as u8,
        r[13 * i + 2] == (t[1] >> 3i32) as u8,
        r[13 * i + 3] == ((t[1] >> 11i32) | (t[2] << 2i32)) as u8,
        r[13 * i + 4] == ((t[2] >> 6i32) | (t[3] << 7i32)) as u8,
        r[13 * i + 5] == (t[3] >> 1i32) as u8,
        r[13 * i + 6] == ((t[3] >> 9i32) | (t[4] << 4i32)) as u8,
        r[13 * i + 7] == (t[4] >> 4i32) as u8,
        r[13 * i + 8] == ((t[4] >> 12i32) | (t[5] << 1i32)) as u8,
        r[13 * i + 9] == ((t[5] >> 7i32) | (t[6] << 6i32)) as u8,
        r[13 * i + 10] == (t[6] >> 2i32) as u8,
        r[13 * i + 11] == ((t[6] >> 10i32) | (t[7] << 3i32)) as u8,
        r[13 * i + 12] == (t[7] >> 5i32) as u8,
    ensures
        le_value(byte_ints(r).subrange(0, 13 * (i + 1)), 256) == le_value(vals.subrange(0, 8 * (i + 1)), 8192),
{
    assert(byte_ints(r).subrange(0, 13 * i) =~= byte_ints(before).subrange(0, 13 * i));
    lemma_t0_pack_group_value(r, i, t, vals);
    lemma_radix_pairs();
    lemma_le_value_prefix_step(byte_ints(r), 256, 13, vals, 8192, 8, i);
}

/// The 13-bit fields that `bit_pack_t0` stores: 2^(D-1) - t0[i].
pub open spec fn t0_fields(t0: Seq<i32>) -> Seq<int> {
    Seq::new(256, |i: int| 4096 - t0[i] as int)
}

/// Packs a polynomial with coefficients in ]-2^(D-1), 2^(D-1)] into 416 bytes:
/// the little-endian bit string of the 13-bit fields 2^(D-1) - t0[i].
#[verifier::spinoff_prover]
pub fn bit_pack_t0(t0: &[i32; 256]) -> (r: [u8; LEN_T0_PACK_POLY])
    requires
        forall|i: int| 0 <= i < 256 ==> -4096 < #[trigger] t0@[i] <= 4096,
    ensures
        bit_packed(r@, t0_fields(t0@), 8192),
{
    let ghost vals = t0_fields(t0@);
    let mut t = [0i32; 8];
    let mut r = [0u8; LEN_T0_PACK_POLY];
    proof { lemma_radix_pairs(); }
    assert((1i32 << 12usize) == 4096i32) by (bit_vector);
    assert(byte_ints(r@).subrange(0, 0) =~= Seq::<int>::empty());
    assert(vals.subrange(0, 0) =~= Seq::<int>::empty());
    for i in 0..N / 8
        invariant
            r@.len() == 416,
            vals == t0_fields(t0@),
            forall|k: int| 0 <= k < 256 ==> -4096 < #[trigger] t0@[k] <= 4096,
            pow(256, 13) == pow(8192, 8),
            (1i32 << 12usize) == 4096i32,
            le_value(byte_ints(r@).subrange(0, 13 * i), 256) == le_value(vals.subrange(0, 8 * i), 8192),
    {
        t[0] = (1 << (D - 1)) - t0[8 * i + 0];
        t[1] = (1 << (D - 1)) - t0[8 * i + 1];
        t[2] = (1 << (D - 1)) - t0[8 * i + 2];
        t[3] = (1 << (D - 1)) - t0[8 * i + 3];
        t[4] = (1 << (D - 1)) - t0[8 * i + 4];
        t[5] = (1 << (D - 1)) - t0[8 * i + 5];
        t[6] = (1 << (D - 1)) - t0[8 * i + 6];
        t[7] = (1 << (D - 1)) - t0[8 * i + 7];
        let ghost before = r@;
        r[13 * i + 0] = t[0] as u8;
        r[13 * i + 1] = ((t[0] >> 8) | (t[1] << 5)) as u8;
        r[13 * i + 2] = (t[1] >> 3) as u8;
        r[13 * i + 3] = ((t[1] >> 11) | (t[2] << 2)) as u8;
        r[13 * i + 4] = ((t[2] >> 6) | (t[3] << 7)) as u8;
        r[13 * i + 5] = (t[3] >> 1) as u8;
        r[13 * i + 6] = ((t[3] >> 9) | (t[4] << 4)) as u8;
        r[13 * i + 7] = (t[4] >> 4) as u8;
        r[13 * i + 8] = ((t[4] >> 12) | (t[5] << 1)) as u8;
        r[13 * i + 9] = ((t[5] >> 7) | (t[6] << 6)) as u8;
        r[13 * i + 10] = (t[6] >> 2) as u8;
        r[13 * i + 11] = ((t[6] >> 10) | (t[7] << 3)) as u8;
        r[13 * i + 12] = (t[7] >> 5) as u8;
        proof {
            let ii = i as int;
            assert(forall|k: int| 0 <= k < 13 * ii ==> r@[k] == before[k]);
            assert(forall|m: int| 0 <= m < 8 ==> 0 <= #[trigger] t@[m] < 8192 && vals[8 * ii + m] == t@[m] as int);
            lemma_t0_pack_step(before, r@, ii, t@, vals);
        }
    }
    proof {
        assert(byte_ints(r@).subrange(0, 416) =~= byte_ints(r@));
        assert(vals.subrange(0, 256) =~= vals);
    }
    r
}

/// 8 fields of base 8 packed into 3 bytes, as `bit_pack_eta` writes them.
proof fn lemma_eta_pack_group(t0: i32, t1: i32, t2: i32, t3: i32, t4: i32, t5: i32, t6: i32, t7: i32)
    by (bit_vector)
    requires
        0 <= t0 < 8,
        0 <= t1 < 8,
        0 <= t2 < 8,
        0 <= t3 < 8,
        0 <= t4 < 8,
        0 <= t5 < 8,
        0 <= t6 < 8,
        0 <= t7 < 8,
    ensures
        (((t0 >> 0i32) | (t1 << 3i32) | (t2 << 6i32)) as u8) as u128 * 0x1
        + (((t2 >> 2i32) | (t3 << 1i32) | (t4 << 4i32) | (t5 << 7i32)) as u8) as u128 * 0x100
        + (((t5 >> 1i32) | (t6 << 2i32) | (t7 << 5i32)) as u8) as u128 * 0x10000
        == t0 as u128 * 0x1
        + t1 as u128 * 0x8
        + t2 as u128 * 0x40
        + t3 as u128 * 0x200
        + t4 as u128 * 0x1000
        + t5 as u128 * 0x8000
        + t6 as u128 * 0x40000
        + t7 as u128 * 0x200000,
{
}

/// One iteration of `bit_pack_eta` extends the packed prefix by one group.
proof fn lemma_eta_pack_step(before: Seq<u8>, r: Seq<u8>, i: int, t: Seq<i32>, vals: Seq<int>, groups: int)
    requires
        r.len() == 3 * groups,
        before.len() == 3 * groups,
        vals.len() == 8 * groups,
        0 <= i < groups,
        t.len() == 8,
        forall|k: int| 0 <= k < 3 * i ==> r[k] == before[k],
        le_value(byte_ints(before).subrange(0, 3 * i), 256) == le_value(vals.subrange(0, 8 * i), 8),
        forall|m: int| 0 <= m < 8 ==> 0 <= #[trigger] t[m] < 8 && vals[8 * i + m] == t[m] as int,
        r[3 * i + 0] == ((t[0] >> 0i32) | (t[1] << 3i32) | (t[2] << 6i32)) as u8,
        r[3 * i + 1] == ((t[2] >> 2i32) | (t[3] << 1i32) | (t[4] << 4i32) | (t[5] << 7i32)) as u8,
        r[3 * i + 2] == ((t[5] >> 1i32) | (t[6] << 2i32) | (t[7] << 5i32)) as u8,
    ensures
        le_value(byte_ints(r).subrange(0, 3 * (i + 1)), 256) == le_value(vals.subrange(0, 8 * (i + 1)), 8),
{
    assert(byte_ints(r).subrange(0, 3 * i) =~= byte_ints(before).subrange(0, 3 * i));
    let gb = byte_ints(r).subrange(3 * i, 3 * i + 3);
    let gv = vals.subrange(8 * i, 8 * i + 8);
    lemma_le_value_3(gb, 256);
    lemma_le_value_8(gv, 8);
    assert(0 <= t[0] < 8);
    assert(0 <= t[1] < 8);
    assert(0 <= t[2] < 8);
    assert(0 <= t[3] < 8);
    assert(0 <= t[4] < 8);
    assert(0 <= t[5] < 8);
    assert(0 <= t[6] < 8);
    assert(0 <= t[7] < 8);
    lemma_eta_pack_group(t[0], t[1], t[2], t[3], t[4], t[5], t[6], t[7]);
    lemma_radix_pairs();
    lemma_le_value_prefix_step(byte_ints(r), 256, 3, vals, 8, 8, i);
}

/// 4 fields of base 1024 packed into 5 bytes, as `simple_bit_pack` writes them.
proof fn lemma_simple_pack_group(t0: i32, t1: i32, t2: i32, t3: i32)
    by (bit_vector)
    requires
        0 <= t0 < 1024,
        0 <= t1 < 1024,
        0 <= t2 < 1024,
        0 <= t3 < 1024,
    ensures
        ((t0 >> 0i32) as u8) as u128 * 0x1
        + (((t0 >> 8i32) | (t1 << 2i32)) as u8) as u128 * 0x100
        + (((t1 >> 6i32) | (t2 << 4i32)) as u8) as u128 * 0x10000
        + (((t2 >> 4i32) | (t3 << 6i32)) as u8) as u128 * 0x1000000
        + ((t3 >> 2i32) as u8) as u128 * 0x100000000
        == t0 as u128 * 0x1
        + t1 as u128 * 0x400
        + t2 as u128 * 0x100000
        + t3 as u128 * 0x40000000,
{
}

/// One iteration of `simple_bit_pack` extends the packed prefix by one group.
proof fn lemma_simple_pack_step(before: Seq<u8>, r: Seq<u8>, i: int, t: Seq<i32>, vals: Seq<int>, groups: int)
    requires
        r.len() == 5 * groups,
        before.len() == 5 * groups,
        vals.len() == 4 * groups,
        0 <= i < groups,
        t.len() == 4,
        forall|k: int| 0 <= k < 5 * i ==> r[k] == before[k],
        le_value(byte_ints(before).subrange(0, 5 * i), 256) == le_value(vals.subrange(0, 4 * i), 1024),
        forall|m: int| 0 <= m < 4 ==> 0 <= #[trigger] t[m] < 1024 && vals[4 * i + m] == t[m] as int,
        r[5 * i + 0] == (t[0] >> 0i32) as u8,
        r[5 * i + 1] == ((t[0] >> 8i32) | (t[1] << 2i32)) as u8,
        r[5 * i + 2] == ((t[1] >> 6i32) | (t[2] << 4i32)) as u8,
        r[5 * i + 3] == ((t[2] >> 4i32) | (t[3] << 6i32)) as u8,
        r[5 * i + 4] == (t[3] >> 2i32) as u8,
    ensures
        le_value(byte_ints(r).subrange(0, 5 * (i + 1)), 256) == le_value(vals.subrange(0, 4 * (i + 1)), 1024),
{
    assert(byte_ints(r).subrange(0, 5 * i) =~= byte_ints(before).subrange(0, 5 * i));
    let gb = byte_ints(r).subrange(5 * i, 5 * i + 5);
    let gv = vals.subrange(4 * i, 4 * i + 4);
    lemma_le_value_5(gb, 256);
    lemma_le_value_4(gv, 1024);
    assert(0 <= t[0] < 1024);
    assert(0 <= t[1] < 1024);
    assert(0 <= t[2] < 1024);
    assert(0 <= t[3] < 1024);
    lemma_simple_pack_group(t[0], t[1], t[2], t[3]);
    lemma_radix_pairs();
    lemma_le_value_prefix_step(byte_ints(r), 256, 5, vals, 1024, 4, i);
}

/// The 3-bit fields that `bit_pack_eta` stores: ETA - w[i].
pub open spec fn eta_fields(w: Seq<i32>) -> Seq<int> {
    Seq::new(256, |i: int| 2 - w[i] as int)
}

/// Packs a polynomial with coefficients in [-ETA, ETA] into 96 bytes: the little-endian
/// bit string of the 3-bit fields ETA - w[i].
pub fn bit_pack_eta(w: &[i32; 256]) -> (r: [u8; LEN_ETA_PACK_POLY])
    requires
        forall|i: int| 0 <= i < 256 ==> -2 <= #[trigger] w@[i] <= 2,
    ensures
        bit_packed(r@, eta_fields(w@), 8),
{
    let ghost vals = eta_fields(w@);
    let mut t = [0i32; 8];
    let mut r = [0u8; LEN_ETA_PACK_POLY];
    assert(byte_ints(r@).subrange(0, 0) =~= Seq::<int>::empty());
    assert(vals.subrange(0, 0) =~= Seq::<int>::empty());
    for i in 0..N / 8
        invariant
            r@.len() == 96,
            vals == eta_fields(w@),
            forall|k: int| 0 <= k < 256 ==> -2 <= #[trigger] w@[k] <= 2,
            le_value(byte_ints(r@).subrange(0, 3 * i), 256) == le_value(vals.subrange(0, 8 * i), 8),
    {
        t[0] = ETA as i32 - w[8 * i + 0];
        t[1] = ETA as i32 - w[8 * i + 1];
        t[2] = ETA as i32 - w[8 * i + 2];
        t[3] = ETA as i32 - w[8 * i + 3];
        t[4] = ETA as i32 - w[8 * i + 4];
        t[5] = ETA as i32 - w[8 * i + 5];
        t[6] = ETA as i32 - w[8 * i + 6];
        t[7] = ETA as i32 - w[8 * i + 7];
        let ghost before = r@;
        r[3 * i + 0] = ((t[0] >> 0) | (t[1] << 3) | (t[2] << 6)) as u8;
        r[3 * i + 1] = ((t[2] >> 2) | (t[3] << 1) | (t[4] << 4) | (t[5] << 7)) as u8;
        r[3 * i + 2] = ((t[5] >> 1) | (t[6] << 2) | (t[7] << 5)) as u8;
        proof {
            let ii = i as int;
            assert(forall|k: int| 0 <= k < 3 * ii ==> r@[k] == before[k]);
            assert(forall|m: int| 0 <= m < 8 ==> 0 <= #[trigger] t@[m] < 8 && vals[8 * ii + m] == t@[m] as int);
            lemma_eta_pack_step(before, r@, ii, t@, vals, 32);
        }
    }
    proof {
        assert(byte_ints(r@).subrange(0, 96) =~= byte_ints(r@));
        assert(vals.subrange(0, 256) =~= vals);
        assert(digits_below(vals, 8));
    }
    r
}

/// The 320 bytes of the little-endian bit string of the 10-bit coefficients of a.
pub open spec fn packed_bytes10(a: Seq<i32>) -> Seq<int> {
    digits_of(le_value(a.map_values(|x: i32| x as int), 1024), 256, 320)
}

/// Packs a polynomial with coefficients in [0, b], for a bound b below 2^10, into 320 bytes:
/// the little-endian bit string of its 10-bit coefficients. Every byte of the result is
/// below b: for b below 256 that is a demand on the coefficients.
pub fn simple_bit_pack(a: &[i32; 256], b: u32) -> (r: [u8; 320])
    requires
        b <= 1023,
        forall|i: int| 0 <= i < 256 ==> 0 <= #[trigger] a@[i] <= b,
        b >= 256 || forall|k: int| 0 <= k < 320 ==> #[trigger] packed_bytes10(a@)[k] < b,
    ensures
        bit_packed(r@, a@.map_values(|x: i32| x as int), 1024),
        forall|k: int| 0 <= k < 320 ==> #[trigger] r@[k] as int == packed_bytes10(a@)[k],
{
    let ghost vals = a@.map_values(|x: i32| x as int);
    let mut r = [0u8; 320];
    assert(byte_ints(r@).subrange(0, 0) =~= Seq::<int>::empty());
    assert(vals.subrange(0, 0) =~= Seq::<int>::empty());
    for i in 0..N / 4
        invariant
            r@.len() == 320,
            vals == a@.map_values(|x: i32| x as int),
            b <= 1023,
            forall|k: int| 0 <= k < 256 ==> 0 <= #[trigger] a@[k] <= b,
            le_value(byte_ints(r@).subrange(0, 5 * i), 256) == le_value(vals.subrange(0, 4 * i), 1024),
    {
        let ghost before = r@;
        r[5 * i + 0] = ((a[4 * i + 0]) >> 0) as u8;
        r[5 * i + 1] = (((a[4 * i + 0]) >> 8) | ((a[4 * i + 1]) << 2)) as u8;
        r[5 * i + 2] = (((a[4 * i + 1]) >> 6) | ((a[4 * i + 2]) << 4)) as u8;
        r[5 * i + 3] = (((a[4 * i + 2]) >> 4) | ((a[4 * i + 3]) << 6)) as u8;
        r[5 * i + 4] = ((a[4 * i + 3]) >> 2) as u8;
        proof {
            let ii = i as int;
            let t = a@.subrange(4 * ii, 4 * ii + 4);
            assert(forall|k: int| 0 <= k < 5 * ii ==> r@[k] == before[k]);
            assert(forall|m: int| 0 <= m < 4 ==> 0 <= #[trigger] t[m] < 1024 && vals[4 * ii + m] == t[m] as int);
            lemma_simple_pack_step(before, r@, ii, t, vals, 64);
        }
    }
    proof {
        assert(byte_ints(r@).subrange(0, 320) =~= byte_ints(r@));
        assert(vals.subrange(0, 256) =~= vals);
        assert(digits_below(vals, 1024));
        lemma_byte_ints_below(r@);
        assert forall|k: int| 0 <= k < 320 implies #[trigger] r@[k] as int == packed_bytes10(a@)[k] by {
            lemma_le_value_digit(byte_ints(r@), 256, k);
            assert(byte_ints(r@)[k] == r@[k] as int);
        }
    }
    r
}

/// The 23-bit integer of three bytes, little-endian, with the top bit of the last byte cleared.
pub open spec fn three_bytes_value(b0: u8, b1: u8, b2: u8) -> int {
    (b2 as int % 128) * 65536 + b1 as int * 256 + b0 as int
}

/// Turns three bytes into an element of Z_q, or rejects them when the 23-bit integer is q or more.
pub fn coefficient_from_three_bytes(b0: u8, b1: u8, b2: u8) -> (r: Result<i32, MlDsaError>)
    ensures
        r == (if three_bytes_value(b0, b1, b2) < Q {
            Ok::<i32, MlDsaError>(three_bytes_value(b0, b1, b2) as i32)
        } else {
            Err::<i32, MlDsaError>(MlDsaError::BadNTTPolySample)
        }),
{
    proof { lemma_three_bytes(b0, b1, b2); }
    let b2 = (b2 & 127) as i32; // clear the top bit: 0 <= b2 <= 127
    let z = (b2 << 16) + ((b1 as i32) << 8) + (b0 as i32);
    if z < Q {
        Ok(z)
    } else {
        Err(MlDsaError::BadNTTPolySample)
    }
}

proof fn lemma_three_bytes(b0: u8, b1: u8, b2: u8)
    ensures
        (((b2 & 127u8) as i32) << 16i32) + ((b1 as i32) << 8i32) + (b0 as i32) == three_bytes_value(b0, b1, b2),
{
    assert(((b2 & 127u8) as i32) << 16i32 == ((b2 % 128) as i32) * 65536) by (bit_vector);
    assert(((b1 as i32) << 8i32) == (b1 as i32) * 256) by (bit_vector);
}

/// r mod 5 for r in [0, 16).
pub const MOD5: [i8; 16] = [0, 1, 2, 3, 4, 0, 1, 2, 3, 4, 0, 1, 2, 3, 4, 0];

spec fn mod5_table_ok(lo: int, hi: int) -> bool
    decreases hi - lo,
{
    if hi - lo <= 0 {
        true
    } else if hi - lo == 1 {
        MOD5@[lo] as int == lo % 5
    } else {
        mod5_table_ok(lo, lo + (hi - lo) / 2) && mod5_table_ok(lo + (hi - lo) / 2, hi)
    }
}

proof fn lemma_mod5_table_at(lo: int, hi: int, i: int)
    requires
        mod5_table_ok(lo, hi),
        lo <= i < hi,
    ensures
        MOD5@[i] as int == i % 5,
    decreases hi - lo,
{
    if hi - lo > 1 {
        let mid = lo + (hi - lo) / 2;
        if i < mid {
            lemma_mod5_table_at(lo, mid, i);
        } else {
            lemma_mod5_table_at(mid, hi, i);
        }
    }
}

proof fn lemma_mod5_table(i: int)
    requires
        0 <= i < 16,
    ensures
        MOD5@[i] as int == i % 5,
{
    assert(mod5_table_ok(0, 16)) by {
        reveal_with_fuel(mod5_table_ok, 6);
    }
    lemma_mod5_table_at(0, 16, i);
}

/// Turns a half byte into a coefficient in [-ETA, ETA] = [-2, 2], namely 2 - (b mod 5),
/// or rejects it when b is 15 or more.
pub fn coefficient_from_half_byte(b: u8) -> (r: Result<i8, MlDsaError>)
    ensures
        r == (if b < 15 {
            Ok::<i8, MlDsaError>((2 - b as int % 5) as i8)
        } else {
            Err::<i8, MlDsaError>(MlDsaError::BadBoundedPolySample)
        }),
{
    if b < 15 {
        assert((b & 0x0Fu8) == b) by (bit_vector) requires b < 15u8;
        proof { lemma_mod5_table(b as int); }
        Ok(2 - MOD5[(b & 0x0F) as usize])
    } else {
        Err(MlDsaError::BadBoundedPolySample)
    }
}

/// Splits r into r1 * 2^D + r0 with r0 in ]-2^(D-1), 2^(D-1)] (Power2Round).
pub fn power2round(r: i32) -> (res: (i32, i32))
    requires
        r < Q,
    ensures
        res.0 as int == (r as int + 4095) / 8192,
        res.1 as int == r as int - 8192 * res.0 as int,
        -4096 < res.1 <= 4096,
        res.0 < 1024,
        0 <= r ==> 0 <= res.0,
{
    proof { lemma_power2round_bits(r); }
    let r1 = (r + (1 << (D - 1)) - 1) >> D;
    let r0 = r - (r1 << D);
    (r1, r0)
}

proof fn lemma_power2round_bits(r: i32)
    requires
        r <= i32::MAX - 4096,
    ensures
        (1i32 << 12usize) == 4096,
        ((r + 4095) as i32 >> 13usize) as int == (r as int + 4095) / 8192,
        -0x4_0000 <= (r as int + 4095) / 8192 < 0x4_0000,
        (((r + 4095) as i32 >> 13usize) << 13usize) as int == 8192 * ((r as int + 4095) / 8192),
{
    assert((1i32 << 12usize) == 4096) by (bit_vector);
    let x: i32 = (r + 4095) as i32;
    assert((x >> 13usize) as int * 8192 + (x & 8191i32) as int == x as int && 0 <= (x & 8191i32) < 8192) by (bit_vector);
    vstd::arithmetic::div_mod::lemma_fundamental_div_mod_converse(x as int, 8192, (x >> 13usize) as int, (x & 8191i32) as int);
    let h = x >> 13usize;
    assert(-0x4_0000 <= h < 0x4_0000) by (bit_vector) requires h == x >> 13usize;
    assert((h << 13usize) == h * 8192) by (bit_vector) requires -0x4_0000 <= h < 0x4_0000;
}

/// Number of three-byte groups of the SHAKE128 stream that rejection sampling of an NTT
/// polynomial reads first; each further read of the stream doubles it.
pub const NTT_SAMPLE_TRIPLES: usize = 894;

/// Number of bytes of the SHAKE256 stream that rejection sampling of a short polynomial reads
/// first; each further read of the stream doubles it.
pub const BOUNDED_SAMPLE_BYTES: usize = 481;

/// The most three-byte groups of the SHAKE128 stream that a buffer of the machine's size
/// can hold in the doubling reads of `reg_ntt_poly`: (usize::MAX / 6), so that three times
/// it is at most half the address space.
pub open spec fn max_ntt_triples() -> nat {
    (usize::MAX / 6) as nat
}

/// The most bytes of the SHAKE256 stream that `reg_bounded_poly` reads: a quarter of the
/// address space.
pub open spec fn max_bounded_bytes() -> nat {
    (usize::MAX / 4) as nat
}

/// The part of the SHAKE128 stream on `seed` that rejection sampling may read.
pub open spec fn ntt_stream(seed: Seq<u8>) -> Seq<u8> {
    shake128_prefix(seed, 3 * max_ntt_triples())
}

/// The part of the SHAKE256 stream on `seed` that rejection sampling may read.
pub open spec fn bounded_stream(seed: Seq<u8>) -> Seq<u8> {
    shake256_prefix(seed, max_bounded_bytes())
}

/// The first 256 of the accepted coefficients, when there are that many.
pub open spec fn first_256(acc: Seq<int>) -> Option<Seq<int>> {
    if acc.len() >= 256 { Some(acc.take(256)) } else { None }
}

/// The candidate coefficient that three-byte group t of the byte stream xs gives.
pub open spec fn ntt_candidate(xs: Seq<u8>, t: int) -> int {
    three_bytes_value(xs[3 * t], xs[3 * t + 1], xs[3 * t + 2])
}

/// The accepted coefficients (those below q) among the first n three-byte groups of xs.
pub open spec fn ntt_accepted(xs: Seq<u8>, n: nat) -> Seq<int>
    decreases n,
{
    if n == 0 {
        Seq::empty()
    } else {
        let prev = ntt_accepted(xs, (n - 1) as nat);
        let v = ntt_candidate(xs, n - 1);
        if v < Q { prev.push(v) } else { prev }
    }
}

/// What rejection sampling draws from the whole three-byte groups of xs.
pub open spec fn ntt_sample_from(xs: Seq<u8>) -> Option<Seq<int>> {
    first_256(ntt_accepted(xs, (xs.len() / 3) as nat))
}

/// The polynomial that rejection sampling (RejNTTPoly) draws from `seed`: the first 256
/// accepted coefficients of the SHAKE128 output stream on `seed`, or nothing when even
/// max_ntt_triples() groups of three bytes, as much as the machine can hold, accept fewer.
pub open spec fn ntt_sample(seed: Seq<u8>) -> Option<Seq<int>> {
    first_256(ntt_accepted(ntt_stream(seed), max_ntt_triples()))
}

proof fn lemma_ntt_accepted_prefix(xs: Seq<u8>, n: nat, m: nat)
    requires
        n <= m,
    ensures
        ntt_accepted(xs, n).len() <= ntt_accepted(xs, m).len(),
        ntt_accepted(xs, m).take(ntt_accepted(xs, n).len() as int) == ntt_accepted(xs, n),
    decreases m - n,
{
    if n < m {
        lemma_ntt_accepted_prefix(xs, n, (m - 1) as nat);
        let a = ntt_accepted(xs, n);
        let b = ntt_accepted(xs, (m - 1) as nat);
        assert(ntt_accepted(xs, m).take(a.len() as int) =~= b.take(a.len() as int));
    } else {
        assert(ntt_accepted(xs, m).take(ntt_accepted(xs, n).len() as int) =~= ntt_accepted(xs, n));
    }
}

/// Rejection sampling of a polynomial with coefficients in [0, q) from a byte stream:
/// each group of three bytes gives a 23-bit candidate, kept when it is below q, until
/// 256 coefficients are kept. The result is an error when the whole groups of the
/// stream keep fewer than 256.
pub fn ntt_poly_from_stream(xof: &[u8]) -> (r: Result<[i32; 256], MlDsaError>)
    ensures
        match ntt_sample_from(xof@) {
            Some(p) => r matches Ok(poly) && poly@.map_values(|x: i32| x as int) == p,
            None => r == Err::<[i32; 256], MlDsaError>(MlDsaError::BadNTTPolySample),
        },
{
    let total = xof.len();
    let groups = total / 3;
    let ghost n = (xof@.len() / 3) as nat;
    assert(3 * groups <= xof@.len());
    let mut poly = [0i32; 256];
    let mut j = 0usize;
    let mut t = 0usize;
    while j < 256 && t < groups
        invariant
            groups == n,
            total == xof@.len(),
            n == xof@.len() / 3,
            3 * groups <= total,
            t <= groups,
            j == ntt_accepted(xof@, t as nat).len(),
            j <= 256,
            forall|k: int| 0 <= k < j ==> #[trigger] poly@[k] as int == ntt_accepted(xof@, t as nat)[k],
        decreases groups - t,
    {
        assert(3 * t + 3 <= 3 * groups);
        let s0 = xof[3 * t];
        let s1 = xof[3 * t + 1];
        let s2 = xof[3 * t + 2];
        assert(ntt_candidate(xof@, t as int) == three_bytes_value(s0, s1, s2));
        let ghost prev = ntt_accepted(xof@, t as nat);
        assert(ntt_accepted(xof@, (t + 1) as nat) == (if three_bytes_value(s0, s1, s2) < Q {
            prev.push(three_bytes_value(s0, s1, s2))
        } else {
            prev
        }));
        if let Ok(z_q) = coefficient_from_three_bytes(s0, s1, s2) {
            poly[j] = z_q;
            j += 1;
        }
        t += 1;
    }
    if j < 256 {
        assert(t == groups);
        Err(MlDsaError::BadNTTPolySample)
    } else {
        proof {
            lemma_ntt_accepted_prefix(xof@, t as nat, n);
            assert(poly@.map_values(|x: i32| x as int) =~= ntt_accepted(xof@, n).take(256));
        }
        Ok(poly)
    }
}

/// The accepted coefficients among the first n groups only depend on the first 3n bytes.
proof fn lemma_ntt_accepted_agree(xs: Seq<u8>, ys: Seq<u8>, n: nat)
    requires
        forall|i: int| 0 <= i < 3 * n ==> #[trigger] xs[i] == ys[i],
    ensures
        ntt_accepted(xs, n) == ntt_accepted(ys, n),
    decreases n,
{
    if n > 0 {
        let m = (n - 1) as nat;
        lemma_ntt_accepted_agree(xs, ys, m);
        let t = 3 * (m as int);
        assert(xs[t] == ys[t] && xs[t + 1] == ys[t + 1] && xs[t + 2] == ys[t + 2]);
    }
}

/// What the sampler draws from a prefix of the stream that holds 256 accepted coefficients
/// is what it draws from the whole stream it may read.
proof fn lemma_ntt_sample_prefix(seed: Seq<u8>, xs: Seq<u8>, n: nat)
    requires
        n <= max_ntt_triples(),
        xs.len() >= 3 * n,
        forall|i: int| 0 <= i < 3 * n ==> #[trigger] xs[i] == shake128_stream(seed, i),
    ensures
        ntt_accepted(xs, n) == ntt_accepted(ntt_stream(seed), n),
        ntt_accepted(xs, n).len() >= 256 ==> ntt_sample(seed) == first_256(ntt_accepted(xs, n)),
{
    let ps = ntt_stream(seed);
    lemma_ntt_accepted_agree(xs, ps, n);
    lemma_ntt_accepted_prefix(ps, n, max_ntt_triples());
    if ntt_accepted(xs, n).len() >= 256 {
        let a = ntt_accepted(ps, n);
        let b = ntt_accepted(ps, max_ntt_triples());
        assert(b.take(a.len() as int) == a);
        assert(b.take(256) =~= a.take(256));
    }
}

/// Draws a polynomial with coefficients in [0, q) by rejection sampling from the SHAKE128
/// output stream on `seed` (RejNTTPoly): the first 256 coefficients below q. The stream is
/// read NTT_SAMPLE_TRIPLES groups of three bytes at first, and twice as much each time that
/// is not enough, up to max_ntt_triples() groups; only beyond that, where no buffer of the
/// machine could hold the stream, is the result an error.
pub fn reg_ntt_poly(seed: [u8; 34]) -> (r: Result<[i32; 256], MlDsaError>)
    ensures
        match ntt_sample(seed@) {
            Some(p) => r matches Ok(poly) && poly@.map_values(|x: i32| x as int) == p,
            None => r == Err::<[i32; 256], MlDsaError>(MlDsaError::BadNTTPolySample),
        },
{
    let cap: usize = (usize::MAX / 6) * 3;
    let mut len: usize = 3 * NTT_SAMPLE_TRIPLES;
    loop
        invariant
            cap == 3 * max_ntt_triples(),
            len % 3 == 0,
            2682 <= len <= cap,
        decreases cap - len,
    {
        let xof = shake128(seed.as_slice(), len);
        let res = ntt_poly_from_stream(xof.as_slice());
        proof { lemma_ntt_sample_prefix(seed@, xof@, (len / 3) as nat); }
        match res {
            Ok(p) => {
                return Ok(p);
            },
            Err(e) => {
                if len == cap {
                    return Err(e);
                }
                len = if len <= cap / 2 { 2 * len } else { cap };
            },
        }
    }
}

/// Half byte k of the byte stream xs: the low half of byte k / 2 first, then its high half.
pub open spec fn half_byte(xs: Seq<u8>, k: int) -> int {
    let b = xs[k / 2] as int;
    if k % 2 == 0 { b % 16 } else { b / 16 }
}

/// The accepted coefficients 2 - (h mod 5), for half bytes h below 15, among the first n
/// half bytes of xs.
pub open spec fn bounded_accepted(xs: Seq<u8>, n: nat) -> Seq<int>
    decreases n,
{
    if n == 0 {
        Seq::empty()
    } else {
        let prev = bounded_accepted(xs, (n - 1) as nat);
        let h = half_byte(xs, n - 1);
        if h < 15 { prev.push(2 - h % 5) } else { prev }
    }
}

/// What rejection sampling draws from all the half bytes of xs.
pub open spec fn bounded_sample_from(xs: Seq<u8>) -> Option<Seq<int>> {
    first_256(bounded_accepted(xs, 2 * xs.len()))
}

/// The polynomial that rejection sampling (RejBoundedPoly) draws from `seed`: the first 256
/// accepted coefficients among the half bytes of the SHAKE256 output stream on `seed`, or
/// nothing when even max_bounded_bytes() bytes, as much as the machine can hold, accept fewer.
pub open spec fn bounded_sample(seed: Seq<u8>) -> Option<Seq<int>> {
    first_256(bounded_accepted(bounded_stream(seed), 2 * max_bounded_bytes()))
}

proof fn lemma_bounded_accepted_prefix(xs: Seq<u8>, n: nat, m: nat)
    requires
        n <= m,
    ensures
        bounded_accepted(xs, n).len() <= bounded_accepted(xs, m).len(),
        bounded_accepted(xs, m).take(bounded_accepted(xs, n).len() as int) == bounded_accepted(xs, n),
    decreases m - n,
{
    if n < m {
        lemma_bounded_accepted_prefix(xs, n, (m - 1) as nat);
        let a = bounded_accepted(xs, n);
        let b = bounded_accepted(xs, (m - 1) as nat);
        assert(bounded_accepted(xs, m).take(a.len() as int) =~= b.take(a.len() as int));
    } else {
        assert(bounded_accepted(xs, m).take(bounded_accepted(xs, n).len() as int) =~= bounded_accepted(xs, n));
    }
}

proof fn lemma_half_bytes(z: u8)
    ensures
        (z & 0x0Fu8) as int == z as int % 16,
        ((z >> 4u8) & 0x0Fu8) as int == z as int / 16,
{
    assert((z & 0x0Fu8) == z % 16) by (bit_vector);
    assert(((z >> 4u8) & 0x0Fu8) == z / 16) by (bit_vector);
}

/// Rejection sampling of a polynomial with coefficients in [-ETA, ETA] from a byte stream:
/// each byte gives two half bytes, low half first; a half byte h below 15 gives the
/// coefficient 2 - (h mod 5), until 256 coefficients are kept. The result is an error when
/// the half bytes of the stream keep fewer than 256.
pub fn bounded_poly_from_stream(xof: &[u8]) -> (r: Result<[i32; 256], MlDsaError>)
    ensures
        match bounded_sample_from(xof@) {
            Some(p) => r matches Ok(poly) && poly@.map_values(|x: i32| x as int) == p,
            None => r == Err::<[i32; 256], MlDsaError>(MlDsaError::BadBoundedPolySample),
        },
{
    let mut poly = [0i8; 256];
    let ghost xs = xof@;
    let mut j = 0usize;
    let mut c = 0usize;
    while j < 256 && c < xof.len()
        invariant
            xs == xof@,
            c <= xs.len(),
            j <= 256,
            j < 256 ==> j == bounded_accepted(xs, 2 * c as nat).len(),
            j == 256 ==> bounded_accepted(xs, 2 * c as nat).len() >= 256,
            forall|k: int| 0 <= k < j ==> #[trigger] poly@[k] as int == bounded_accepted(xs, 2 * c as nat)[k],
        decreases xs.len() - c,
    {
        let z = xof[c];
        proof { lemma_half_bytes(z); }
        let ghost a0 = bounded_accepted(xs, 2 * c as nat);
        let ghost a1 = bounded_accepted(xs, (2 * c + 1) as nat);
        let ghost a2 = bounded_accepted(xs, (2 * c + 2) as nat);
        assert(half_byte(xs, 2 * c as int) == z as int % 16);
        assert(half_byte(xs, 2 * c + 1) == z as int / 16);
        proof {
            lemma_bounded_accepted_prefix(xs, (2 * c + 1) as nat, (2 * c + 2) as nat);
        }
        let rz0 = coefficient_from_half_byte(z & 0x0F);
        let rz1 = coefficient_from_half_byte((z >> 4) & 0x0F);
        if let Ok(z0) = rz0 {
            poly[j] = z0;
            j += 1;
        }
        assert(j == a1.len());
        if let Ok(z1) = rz1 {
            if j < 256 {
                poly[j] = z1;
                j += 1;
            }
        }
        c += 1;
        proof {
            if j == 256 {
                assert(a2.len() >= 256);
            }
        }
    }
    if j < 256 {
        assert(c == xs.len());
        Err(MlDsaError::BadBoundedPolySample)
    } else {
        let mut out = [0i32; 256];
        for k in 0..256
            invariant
                forall|m: int| 0 <= m < k ==> #[trigger] out@[m] == poly@[m] as i32,
        {
            out[k] = poly[k] as i32;
        }
        proof {
            lemma_bounded_accepted_prefix(xs, 2 * c as nat, 2 * xs.len());
            let acc = bounded_accepted(xs, 2 * c as nat);
            assert(acc.take(256) =~= bounded_accepted(xs, 2 * xs.len()).take(256));
            assert(out@.map_values(|x: i32| x as int) =~= bounded_accepted(xs, 2 * xs.len()).take(256));
        }
        Ok(out)
    }
}

/// The accepted coefficients among the first n half bytes only depend on the first
/// n / 2 bytes, rounded up.
proof fn lemma_bounded_accepted_agree(xs: Seq<u8>, ys: Seq<u8>, n: nat)
    requires
        forall|i: int| 0 <= 2 * i < n ==> #[trigger] xs[i] == ys[i],
    ensures
        bounded_accepted(xs, n) == bounded_accepted(ys, n),
    decreases n,
{
    if n > 0 {
        let m = (n - 1) as nat;
        lemma_bounded_accepted_agree(xs, ys, m);
        let h = (m / 2) as int;
        assert(xs[h] == ys[h]);
    }
}

/// What the sampler draws from a prefix of the stream that holds 256 accepted coefficients
/// is what it draws from the whole stream it may read.
proof fn lemma_bounded_sample_prefix(seed: Seq<u8>, xs: Seq<u8>, n: nat)
    requires
        n <= max_bounded_bytes(),
        xs.len() >= n,
        forall|i: int| 0 <= i < n ==> #[trigger] xs[i] == shake256_stream(seed, i),
    ensures
        bounded_accepted(xs, 2 * n) == bounded_accepted(bounded_stream(seed), 2 * n),
        bounded_accepted(xs, 2 * n).len() >= 256 ==> bounded_sample(seed) == first_256(bounded_accepted(xs, 2 * n)),
{
    let ps = bounded_stream(seed);
    lemma_bounded_accepted_agree(xs, ps, 2 * n);
    lemma_bounded_accepted_prefix(ps, 2 * n, 2 * max_bounded_bytes());
    if bounded_accepted(xs, 2 * n).len() >= 256 {
        let a = bounded_accepted(ps, 2 * n);
        let b = bounded_accepted(ps, 2 * max_bounded_bytes());
        assert(b.take(a.len() as int) == a);
        assert(b.take(256) =~= a.take(256));
    }
}

/// Draws a polynomial with coefficients in [-ETA, ETA] by rejection sampling from the
/// SHAKE256 output stream on `rho` (RejBoundedPoly): the first 256 accepted half bytes. The
/// stream is read BOUNDED_SAMPLE_BYTES bytes at first, and twice as much each time that is
/// not enough, up to max_bounded_bytes() bytes; only beyond that, where no buffer of the
/// machine could hold the stream, is the result an error.
pub fn reg_bounded_poly(rho: [u8; 66]) -> (r: Result<[i32; 256], MlDsaError>)
    ensures
        match bounded_sample(rho@) {
            Some(p) => r matches Ok(poly) && poly@.map_values(|x: i32| x as int) == p,
            None => r == Err::<[i32; 256], MlDsaError>(MlDsaError::BadBoundedPolySample),
        },
{
    let cap: usize = usize::MAX / 4;
    let mut len: usize = BOUNDED_SAMPLE_BYTES;
    loop
        invariant
            cap == max_bounded_bytes(),
            481 <= len <= cap,
        decreases cap - len,
    {
        let xof = shake256(rho.as_slice(), len);
        let res = bounded_poly_from_stream(xof.as_slice());
        proof { lemma_bounded_sample_prefix(rho@, xof@, len as nat); }
        match res {
            Ok(p) => {
                return Ok(p);
            },
            Err(e) => {
                if len == cap {
                    return Err(e);
                }
                len = if len <= cap / 2 { 2 * len } else { cap };
            },
        }
    }
}

/// Rejection sampling of coefficients in [0, q) keeps, in stream order and starting with
/// the first group, exactly the three-byte groups whose 23-bit little-endian value (the top
/// bit of the third byte cleared) is below q: the accepted coefficients among the first n
/// groups are these values, filtered by "below q".
pub proof fn lemma_ntt_accepted_is_filter(xs: Seq<u8>, n: nat)
    ensures
        ntt_accepted(xs, n) == Seq::new(n, |t: int|
            (xs[3 * t + 2] as int % 128) * 65536 + xs[3 * t + 1] as int * 256 + xs[3 * t] as int)
            .filter(|v: int| v < 8380417),
    decreases n,
{
    let f = |t: int| (xs[3 * t + 2] as int % 128) * 65536 + xs[3 * t + 1] as int * 256 + xs[3 * t] as int;
    reveal(Seq::filter);
    if n > 0 {
        lemma_ntt_accepted_is_filter(xs, (n - 1) as nat);
        let sq = Seq::new(n, f);
        assert(sq.drop_last() =~= Seq::new((n - 1) as nat, f));
        assert(sq.last() == ntt_candidate(xs, n - 1));
    }
}

/// Rejection sampling of coefficients in [-ETA, ETA] reads the half bytes of the stream in
/// order, the low half of each byte first, and turns every half byte h below 15 into the
/// coefficient 2 - (h mod 5), rejecting the others: the accepted coefficients among the first
/// n half bytes are these half bytes, filtered by "below 15" and mapped by h -> 2 - h mod 5.
pub proof fn lemma_bounded_accepted_is_filter(xs: Seq<u8>, n: nat)
    ensures
        bounded_accepted(xs, n) == Seq::new(n, |k: int|
            if k % 2 == 0 { xs[k / 2] as int % 16 } else { xs[k / 2] as int / 16 })
            .filter(|h: int| h < 15).map_values(|h: int| 2 - h % 5),
    decreases n,
{
    let f = |k: int| if k % 2 == 0 { xs[k / 2] as int % 16 } else { xs[k / 2] as int / 16 };
    let g = |h: int| 2 - h % 5;
    let p = |h: int| h < 15;
    reveal(Seq::filter);
    if n > 0 {
        lemma_bounded_accepted_is_filter(xs, (n - 1) as nat);
        let sq = Seq::new(n, f);
        assert(sq.drop_last() =~= Seq::new((n - 1) as nat, f));
        assert(sq.last() == half_byte(xs, n - 1));
        let prev = Seq::new((n - 1) as nat, f).filter(p);
        assert(prev.push(sq.last()).map_values(g) =~= prev.map_values(g).push(g(sq.last())));
    }
}

/// Coefficients as integers.
pub open spec fn poly_ints(p: [i32; 256]) -> Seq<int> {
    p@.map_values(|x: i32| x as int)
}

/// The seed of entry (r, s) of the matrix A: rho followed by the bytes s and r.
pub open spec fn a_seed(rho: Seq<u8>, r: int, s: int) -> Seq<u8> {
    rho + seq![s as u8, r as u8]
}

/// Every entry of A can be sampled from rho.
pub open spec fn expand_a_ok(rho: Seq<u8>) -> bool {
    forall|r: int, s: int| 0 <= r < 4 && 0 <= s < 4 ==> (#[trigger] ntt_sample(a_seed(rho, r, s))) is Some
}

/// Expands the 32-byte seed rho into the K x L matrix A in the NTT domain (ExpandA).
pub fn expand_a(seed: &[u8; 32]) -> (res: Result<[[[i32; 256]; L]; K], MlDsaError>)
    ensures
        res is Ok <==> expand_a_ok(seed@),
        res is Err ==> res matches Err(MlDsaError::BadNTTPolySample),
        res matches Ok(a) ==> forall|r: int, s: int| 0 <= r < 4 && 0 <= s < 4 ==>
            ntt_sample(a_seed(seed@, r, s)) == Some(#[trigger] poly_ints(a@[r]@[s])),
{
    let mut a_hat: [[[i32; 256]; L]; K] = [[[0i32; 256]; L]; K];
    let mut rp = [0u8; 34];
    for k in 0..32
        invariant
            forall|m: int| 0 <= m < k ==> rp@[m] == seed@[m],
    {
        rp[k] = seed[k];
    }
    for r in 0..K
        invariant
            forall|m: int| 0 <= m < 32 ==> rp@[m] == seed@[m],
            forall|r2: int, s2: int| 0 <= r2 < r && 0 <= s2 < 4 ==>
                ntt_sample(a_seed(seed@, r2, s2)) == Some(#[trigger] poly_ints(a_hat@[r2]@[s2])),
    {
        let mut row = a_hat[r];
        for s in 0..L
            invariant
                forall|m: int| 0 <= m < 32 ==> rp@[m] == seed@[m],
                r < 4,
                forall|r2: int, s2: int| 0 <= r2 < r && 0 <= s2 < 4 ==>
                    ntt_sample(a_seed(seed@, r2, s2)) == Some(#[trigger] poly_ints(a_hat@[r2]@[s2])),
                forall|s2: int| 0 <= s2 < s ==> ntt_sample(a_seed(seed@, r as int, s2)) == Some(#[trigger] poly_ints(row@[s2])),
        {
            rp[32] = s as u8;
            rp[33] = r as u8;
            assert(rp@ =~= a_seed(seed@, r as int, s as int));
            let z_q = match reg_ntt_poly(rp) {
                Ok(p) => p,
                Err(e) => {
                    assert(!expand_a_ok(seed@)) by {
                        assert(ntt_sample(a_seed(seed@, r as int, s as int)) is None);
                    }
                    return Err(e);
                },
            };
            row[s] = z_q;
        }
        a_hat[r] = row;
    }
    proof {
        assert forall|r: int, s: int| 0 <= r < 4 && 0 <= s < 4 implies (#[trigger] ntt_sample(a_seed(seed@, r, s))) is Some by {
            assert(ntt_sample(a_seed(seed@, r, s)) == Some(poly_ints(a_hat@[r]@[s])));
        }
    }
    Ok(a_hat)
}

/// The seed of the i-th short polynomial: rho' followed by i as a two-byte integer.
pub open spec fn s_seed(rho_prime: Seq<u8>, i: int) -> Seq<u8> {
    rho_prime + seq![i as u8, 0u8]
}

/// Every short polynomial of s1 and s2 can be sampled from rho'.
pub open spec fn expand_s_ok(rho_prime: Seq<u8>) -> bool {
    forall|i: int| 0 <= i < 8 ==> (#[trigger] bounded_sample(s_seed(rho_prime, i))) is Some
}

/// Expands the 64-byte seed rho' into the short vectors s1 (L polynomials) and s2
/// (K polynomials) with coefficients in [-ETA, ETA] (ExpandS).
pub fn expand_s(r: &[u8; 64]) -> (res: Result<([[i32; 256]; L], [[i32; 256]; K]), MlDsaError>)
    ensures
        res is Ok <==> expand_s_ok(r@),
        res is Err ==> res matches Err(MlDsaError::BadBoundedPolySample),
        res matches Ok((s1, s2)) ==> {
            &&& forall|i: int| 0 <= i < 4 ==> bounded_sample(s_seed(r@, i)) == Some(#[trigger] poly_ints(s1@[i]))
            &&& forall|i: int| 0 <= i < 4 ==> bounded_sample(s_seed(r@, i + 4)) == Some(#[trigger] poly_ints(s2@[i]))
        },
{
    let mut s1 = [[0i32; 256]; L];
    let mut s2 = [[0i32; 256]; K];
    let mut rho = [0u8; 66];
    for k in 0..64
        invariant
            forall|m: int| 0 <= m < k ==> rho@[m] == r@[m],
    {
        rho[k] = r[k];
    }
    rho[65] = 0;
    for i in 0..L
        invariant
            forall|m: int| 0 <= m < 64 ==> rho@[m] == r@[m],
            rho@[65] == 0,
            forall|j: int| 0 <= j < i ==> bounded_sample(s_seed(r@, j)) == Some(#[trigger] poly_ints(s1@[j])),
    {
        rho[64] = i as u8;
        assert(rho@ =~= s_seed(r@, i as int));
        match reg_bounded_poly(rho) {
            Ok(p) => { s1[i] = p; },
            Err(e) => {
                assert(!expand_s_ok(r@)) by {
                    assert(bounded_sample(s_seed(r@, i as int)) is None);
                }
                return Err(e);
            },
        }
    }
    for i in 0..K
        invariant
            forall|m: int| 0 <= m < 64 ==> rho@[m] == r@[m],
            rho@[65] == 0,
            forall|j: int| 0 <= j < 4 ==> bounded_sample(s_seed(r@, j)) == Some(#[trigger] poly_ints(s1@[j])),
            forall|j: int| 0 <= j < i ==> bounded_sample(s_seed(r@, j + 4)) == Some(#[trigger] poly_ints(s2@[j])),
    {
        rho[64] = (i + L) as u8;
        assert(rho@ =~= s_seed(r@, i + 4));
        match reg_bounded_poly(rho) {
            Ok(p) => { s2[i] = p; },
            Err(e) => {
                assert(!expand_s_ok(r@)) by {
                    assert(bounded_sample(s_seed(r@, i + 4)) is None);
                }
                return Err(e);
            },
        }
    }
    proof {
        assert forall|i: int| 0 <= i < 8 implies (#[trigger] bounded_sample(s_seed(r@, i))) is Some by {
            if i >= 4 {
                assert(bounded_sample(s_seed(r@, (i - 4) + 4)) == Some(poly_ints(s2@[i - 4])));
            } else {
                assert(bounded_sample(s_seed(r@, i)) == Some(poly_ints(s1@[i])));
            }
        }
    }
    Ok((s1, s2))
}

/// Writes `src` into `dst` at `start`, leaving the other bytes as they were.
fn put_bytes<const M: usize, const S: usize>(dst: &mut [u8; M], start: usize, src: &[u8; S])
    requires
        start + S <= M,
    ensures
        final(dst)@.subrange(start as int, start + S) == src@,
        forall|k: int| 0 <= k < M && !(start <= k < start + S) ==> #[trigger] final(dst)@[k] == old(dst)@[k],
{
    for k in 0..S
        invariant
            start + S <= M,
            forall|j: int| 0 <= j < k ==> #[trigger] dst@[start + j] == src@[j],
            forall|j: int| 0 <= j < M && !(start <= j < start + k) ==> #[trigger] dst@[j] == old(dst)@[j],
    {
        dst[start + k] = src[k];
    }
    assert forall|j: int| 0 <= j < S implies #[trigger] dst@.subrange(start as int, start + S)[j] == src@[j] by {
        assert(dst@[start + j] == src@[j]);
    }
    assert(dst@.subrange(start as int, start + S) =~= src@);
}

/// The coefficient-wise sum of two polynomials in Z_q.
pub fn vec_add(a: &[i32; 256], b: &[i32; 256]) -> (r: [i32; 256])
    requires
        forall|p: int| 0 <= p < 256 ==> i32::MIN <= #[trigger] a@[p] + b@[p] <= i32::MAX,
    ensures
        forall|p: int| 0 <= p < 256 ==> (#[trigger] r@[p]) as int == canon(a@[p] + b@[p]),
{
    ntt_add(a, b)
}

/// Encodes the public key: rho, then each polynomial of t1 packed with 10-bit coefficients.
pub fn pk_encode(rho: &[u8; 32], t1: &[[i32; 256]; K]) -> (pk: [u8; LEN_PUBLIC_KEY])
    requires
        forall|i: int, p: int| 0 <= i < 4 && 0 <= p < 256 ==> 0 <= #[trigger] t1@[i]@[p] <= 1023,
    ensures
        pk@.subrange(0, 32) == rho@,
        forall|i: int| 0 <= i < 4 ==> bit_packed(#[trigger] pk@.subrange(32 + 320 * i, 32 + 320 * i + 320),
            poly_ints(t1@[i]), 1024),
{
    let mut pk = [0u8; LEN_PUBLIC_KEY];
    put_bytes(&mut pk, 0, rho);
    for i in 0..K
        invariant
            pk@.subrange(0, 32) == rho@,
            forall|i2: int, p: int| 0 <= i2 < 4 && 0 <= p < 256 ==> 0 <= #[trigger] t1@[i2]@[p] <= 1023,
            forall|j: int| 0 <= j < i ==> bit_packed(#[trigger] pk@.subrange(32 + 320 * j, 32 + 320 * j + 320),
                poly_ints(t1@[j]), 1024),
    {
        let ghost before = pk@;
        let t_packed = simple_bit_pack(&t1[i], 1023); // 2^(bitlen(q-1)-d) - 1 = 2^10 - 1 = 1023
        put_bytes(&mut pk, 32 + i * 320, &t_packed);
        proof {
            assert(pk@.subrange(0, 32) =~= before.subrange(0, 32));
            assert forall|j: int| 0 <= j < i implies bit_packed(#[trigger] pk@.subrange(32 + 320 * j, 32 + 320 * j + 320),
                poly_ints(t1@[j]), 1024) by {
                assert(pk@.subrange(32 + 320 * j, 32 + 320 * j + 320) =~= before.subrange(32 + 320 * j, 32 + 320 * j + 320));
            }
            assert(t1@[i as int]@.map_values(|x: i32| x as int) == poly_ints(t1@[i as int]));
        }
    }
    pk
}

/// Encodes the private key: rho, K, tr, then s1 and s2 packed with 3-bit fields and t0
/// packed with 13-bit fields.
pub fn sk_encode(rho: &[u8; 32], key: &[u8; 32], tr: &[u8; 64], s1: &[[i32; 256]; L], s2: &[[i32; 256]; K],
    t0: &[[i32; 256]; K]) -> (sk: [u8; LEN_PRIVATE_KEY])
    requires
        forall|i: int, p: int| 0 <= i < 4 && 0 <= p < 256 ==> -2 <= #[trigger] s1@[i]@[p] <= 2,
        forall|i: int, p: int| 0 <= i < 4 && 0 <= p < 256 ==> -2 <= #[trigger] s2@[i]@[p] <= 2,
        forall|i: int, p: int| 0 <= i < 4 && 0 <= p < 256 ==> -4096 < #[trigger] t0@[i]@[p] <= 4096,
    ensures
        sk@.subrange(0, 32) == rho@,
        sk@.subrange(32, 64) == key@,
        sk@.subrange(64, 128) == tr@,
        forall|i: int| 0 <= i < 4 ==> bit_packed(#[trigger] sk@.subrange(sk_eta_offset(i), sk_eta_offset(i) + 96),
            eta_fields(s1@[i]@), 8),
        forall|i: int| 0 <= i < 4 ==> bit_packed(#[trigger] sk@.subrange(sk_eta_offset(4 + i), sk_eta_offset(4 + i) + 96),
            eta_fields(s2@[i]@), 8),
        forall|i: int| 0 <= i < 4 ==> bit_packed(#[trigger] sk@.subrange(sk_t0_offset(i), sk_t0_offset(i) + 416),
            t0_fields(t0@[i]@), 8192),
{
    let mut sk = [0u8; LEN_PRIVATE_KEY];
    put_bytes(&mut sk, 0, rho);
    put_bytes(&mut sk, 32, key);
    put_bytes(&mut sk, 64, tr);
    for i in 0..L
        invariant
            sk@.subrange(0, 32) == rho@,
            sk@.subrange(32, 64) == key@,
            sk@.subrange(64, 128) == tr@,
            forall|i2: int, p: int| 0 <= i2 < 4 && 0 <= p < 256 ==> -2 <= #[trigger] s1@[i2]@[p] <= 2,
            forall|j: int| 0 <= j < i ==> bit_packed(#[trigger] sk@.subrange(sk_eta_offset(j), sk_eta_offset(j) + 96),
                eta_fields(s1@[j]@), 8),
    {
        let ghost before = sk@;
        let j = 128 + i * LEN_ETA_PACK_POLY;
        let packed = bit_pack_eta(&s1[i]);
        put_bytes(&mut sk, j, &packed);
        proof {
            assert(sk@.subrange(0, 32) =~= before.subrange(0, 32));
            assert(sk@.subrange(32, 64) =~= before.subrange(32, 64));
            assert(sk@.subrange(64, 128) =~= before.subrange(64, 128));
            assert forall|j2: int| 0 <= j2 < i implies bit_packed(#[trigger] sk@.subrange(sk_eta_offset(j2), sk_eta_offset(j2) + 96),
                eta_fields(s1@[j2]@), 8) by {
                assert(sk@.subrange(sk_eta_offset(j2), sk_eta_offset(j2) + 96) =~= before.subrange(sk_eta_offset(j2), sk_eta_offset(j2) + 96));
            }
        }
    }
    let j = 128 + L * LEN_ETA_PACK_POLY;
    for i in 0..K
        invariant
            j == 512,
            sk@.subrange(0, 32) == rho@,
            sk@.subrange(32, 64) == key@,
            sk@.subrange(64, 128) == tr@,
            forall|i2: int, p: int| 0 <= i2 < 4 && 0 <= p < 256 ==> -2 <= #[trigger] s2@[i2]@[p] <= 2,
            forall|j2: int| 0 <= j2 < 4 ==> bit_packed(#[trigger] sk@.subrange(sk_eta_offset(j2), sk_eta_offset(j2) + 96),
                eta_fields(s1@[j2]@), 8),
            forall|j2: int| 0 <= j2 < i ==> bit_packed(#[trigger] sk@.subrange(sk_eta_offset(4 + j2), sk_eta_offset(4 + j2) + 96),
                eta_fields(s2@[j2]@), 8),
    {
        let ghost before = sk@;
        let k = j + i * LEN_ETA_PACK_POLY;
        let packed = bit_pack_eta(&s2[i]);
        put_bytes(&mut sk, k, &packed);
        proof {
            assert(sk@.subrange(0, 32) =~= before.subrange(0, 32));
            assert(sk@.subrange(32, 64) =~= before.subrange(32, 64));
            assert(sk@.subrange(64, 128) =~= before.subrange(64, 128));
            assert forall|j2: int| 0 <= j2 < 4 implies bit_packed(#[trigger] sk@.subrange(sk_eta_offset(j2), sk_eta_offset(j2) + 96),
                eta_fields(s1@[j2]@), 8) by {
                assert(sk@.subrange(sk_eta_offset(j2), sk_eta_offset(j2) + 96) =~= before.subrange(sk_eta_offset(j2), sk_eta_offset(j2) + 96));
            }
            assert forall|j2: int| 0 <= j2 < i implies bit_packed(#[trigger] sk@.subrange(sk_eta_offset(4 + j2), sk_eta_offset(4 + j2) + 96),
                eta_fields(s2@[j2]@), 8) by {
                assert(sk@.subrange(sk_eta_offset(4 + j2), sk_eta_offset(4 + j2) + 96) =~= before.subrange(sk_eta_offset(4 + j2), sk_eta_offset(4 + j2) + 96));
            }
        }
    }
    let j = 128 + L * LEN_ETA_PACK_POLY + K * LEN_ETA_PACK_POLY;
    for i in 0..K
        invariant
            j == 896,
            sk@.subrange(0, 32) == rho@,
            sk@.subrange(32, 64) == key@,
            sk@.subrange(64, 128) == tr@,
            forall|i2: int, p: int| 0 <= i2 < 4 && 0 <= p < 256 ==> -4096 < #[trigger] t0@[i2]@[p] <= 4096,
            forall|j2: int| 0 <= j2 < 4 ==> bit_packed(#[trigger] sk@.subrange(sk_eta_offset(j2), sk_eta_offset(j2) + 96),
                eta_fields(s1@[j2]@), 8),
            forall|j2: int| 0 <= j2 < 4 ==> bit_packed(#[trigger] sk@.subrange(sk_eta_offset(4 + j2), sk_eta_offset(4 + j2) + 96),
                eta_fields(s2@[j2]@), 8),
            forall|j2: int| 0 <= j2 < i ==> bit_packed(#[trigger] sk@.subrange(sk_t0_offset(j2), sk_t0_offset(j2) + 416),
                t0_fields(t0@[j2]@), 8192),
    {
        let ghost before = sk@;
        let k = j + i * LEN_T0_PACK_POLY;
        let packed = bit_pack_t0(&t0[i]);
        put_bytes(&mut sk, k, &packed);
        proof {
            assert(sk@.subrange(0, 32) =~= before.subrange(0, 32));
            assert(sk@.subrange(32, 64) =~= before.subrange(32, 64));
            assert(sk@.subrange(64, 128) =~= before.subrange(64, 128));
            assert forall|j2: int| 0 <= j2 < 8 implies bit_packed(#[trigger] sk@.subrange(sk_eta_offset(j2), sk_eta_offset(j2) + 96),
                if j2 < 4 { eta_fields(s1@[j2]@) } else { eta_fields(s2@[j2 - 4]@) }, 8) by {
                assert(sk@.subrange(sk_eta_offset(j2), sk_eta_offset(j2) + 96) =~= before.subrange(sk_eta_offset(j2), sk_eta_offset(j2) + 96));
                if j2 >= 4 {
                    assert(bit_packed(before.subrange(sk_eta_offset(4 + (j2 - 4)), sk_eta_offset(4 + (j2 - 4)) + 96),
                        eta_fields(s2@[j2 - 4]@), 8));
                }
            }
            assert forall|j2: int| 0 <= j2 < 4 implies bit_packed(#[trigger] sk@.subrange(sk_eta_offset(4 + j2), sk_eta_offset(4 + j2) + 96),
                eta_fields(s2@[j2]@), 8) by {
                assert(bit_packed(sk@.subrange(sk_eta_offset(4 + j2), sk_eta_offset(4 + j2) + 96),
                    if 4 + j2 < 4 { eta_fields(s1@[4 + j2]@) } else { eta_fields(s2@[4 + j2 - 4]@) }, 8));
            }
            assert forall|j2: int| 0 <= j2 < i implies bit_packed(#[trigger] sk@.subrange(sk_t0_offset(j2), sk_t0_offset(j2) + 416),
                t0_fields(t0@[j2]@), 8192) by {
                assert(sk@.subrange(sk_t0_offset(j2), sk_t0_offset(j2) + 416) =~= before.subrange(sk_t0_offset(j2), sk_t0_offset(j2) + 416));
            }
        }
    }
    sk
}

/// The polynomial in an option, or the empty sequence.
pub open spec fn opt_poly(o: Option<Seq<int>>) -> Seq<int> {
    match o {
        Some(p) => p,
        None => Seq::empty(),
    }
}

/// The input of the seed expansion: xi followed by the bytes K and L.
pub open spec fn kg_d(xi: Seq<u8>) -> Seq<u8> {
    xi + seq![4u8, 4u8]
}

/// rho || rho' || K: the first 128 bytes of SHAKE256(xi || K || L).
pub open spec fn kg_seed(xi: Seq<u8>) -> Seq<u8> {
    shake256_prefix(kg_d(xi), 128)
}

pub open spec fn kg_rho(xi: Seq<u8>) -> Seq<u8> {
    kg_seed(xi).subrange(0, 32)
}

pub open spec fn kg_rho_prime(xi: Seq<u8>) -> Seq<u8> {
    kg_seed(xi).subrange(32, 96)
}

pub open spec fn kg_key(xi: Seq<u8>) -> Seq<u8> {
    kg_seed(xi).subrange(96, 128)
}

/// Every rejection sampling of key generation from xi finds its 256 coefficients within the
/// part of the stream that the machine can hold.
pub open spec fn kg_samples_ok(xi: Seq<u8>) -> bool {
    expand_a_ok(kg_rho(xi)) && expand_s_ok(kg_rho_prime(xi))
}

/// Entry (i, k) of the matrix A.
pub open spec fn kg_a(xi: Seq<u8>, i: int, k: int) -> Seq<int> {
    opt_poly(ntt_sample(a_seed(kg_rho(xi), i, k)))
}

/// Polynomial k of s1.
pub open spec fn kg_s1(xi: Seq<u8>, k: int) -> Seq<int> {
    opt_poly(bounded_sample(s_seed(kg_rho_prime(xi), k)))
}

/// Polynomial i of s2.
pub open spec fn kg_s2(xi: Seq<u8>, i: int) -> Seq<int> {
    opt_poly(bounded_sample(s_seed(kg_rho_prime(xi), i + 4)))
}

/// sum over k < n of a[k][c] * b[k][c].
pub open spec fn dot_at(a: Seq<Seq<int>>, b: Seq<Seq<int>>, c: int, n: nat) -> int
    decreases n,
{
    if n == 0 { 0 } else { dot_at(a, b, c, (n - 1) as nat) + a[n - 1][c] * b[n - 1][c] }
}

/// Row i of A times NTT(s1), in the NTT domain.
pub open spec fn kg_as1(xi: Seq<u8>, i: int) -> Seq<int> {
    Seq::new(256, |c: int| canon(dot_at(Seq::new(4, |k: int| kg_a(xi, i, k)), Seq::new(4, |k: int| ntt_spec(kg_s1(xi, k))), c, 4)))
}

/// Polynomial i of t = NTT^-1(A * NTT(s1)) + s2.
pub open spec fn kg_t(xi: Seq<u8>, i: int) -> Seq<int> {
    Seq::new(256, |p: int| canon(intt_spec(kg_as1(xi, i))[p] + kg_s2(xi, i)[p]))
}

/// The high part t1 of Power2Round(t).
pub open spec fn kg_t1(xi: Seq<u8>, i: int) -> Seq<int> {
    Seq::new(256, |p: int| (kg_t(xi, i)[p] + 4095) / 8192)
}

/// The low part t0 of Power2Round(t).
pub open spec fn kg_t0(xi: Seq<u8>, i: int) -> Seq<int> {
    Seq::new(256, |p: int| kg_t(xi, i)[p] - 8192 * kg_t1(xi, i)[p])
}

/// The public key of xi: rho, then t1 packed with 10-bit coefficients.
pub open spec fn kg_pk_matches(pk: Seq<u8>, xi: Seq<u8>) -> bool {
    &&& pk.len() == 1312
    &&& pk.subrange(0, 32) == kg_rho(xi)
    &&& forall|i: int| 0 <= i < 4 ==> bit_packed(#[trigger] pk.subrange(32 + 320 * i, 32 + 320 * i + 320), kg_t1(xi, i), 1024)
}

/// The private key of xi, with tr = SHAKE256(pk) for the public key pk.
pub open spec fn kg_sk_matches(sk: Seq<u8>, pk: Seq<u8>, xi: Seq<u8>) -> bool {
    &&& sk.len() == 2560
    &&& sk.subrange(0, 32) == kg_rho(xi)
    &&& sk.subrange(32, 64) == kg_key(xi)
    &&& sk.subrange(64, 128) == shake256_prefix(pk, 64)
    &&& forall|i: int| 0 <= i < 4 ==> bit_packed(#[trigger] sk.subrange(sk_eta_offset(i), sk_eta_offset(i) + 96),
        Seq::new(256, |p: int| 2 - kg_s1(xi, i)[p]), 8)
    &&& forall|i: int| 0 <= i < 4 ==> bit_packed(#[trigger] sk.subrange(sk_eta_offset(4 + i), sk_eta_offset(4 + i) + 96),
        Seq::new(256, |p: int| 2 - kg_s2(xi, i)[p]), 8)
    &&& forall|i: int| 0 <= i < 4 ==> bit_packed(#[trigger] sk.subrange(sk_t0_offset(i), sk_t0_offset(i) + 416),
        Seq::new(256, |p: int| 4096 - kg_t0(xi, i)[p]), 8192)
}

/// What key generation returns for the seed xi.
pub open spec fn key_gen_result(xi: Seq<u8>, r: Result<([u8; LEN_PUBLIC_KEY], [u8; LEN_PRIVATE_KEY]), MlDsaError>) -> bool {
    &&& (r is Ok <==> kg_samples_ok(xi))
    &&& (r is Err ==> (if !expand_a_ok(kg_rho(xi)) {
            r matches Err(MlDsaError::BadNTTPolySample)
        } else {
            r matches Err(MlDsaError::BadBoundedPolySample)
        }))
    &&& (r matches Ok((pk, sk)) ==> kg_pk_matches(pk@, xi) && kg_sk_matches(sk@, pk@, xi))
}

/// The NTT of every polynomial of s1.
pub fn ntt_vec(s1: &[[i32; 256]; L]) -> (r: [[i32; 256]; L])
    ensures
        forall|k: int| 0 <= k < 4 ==> #[trigger] poly_ints(r@[k]) == ntt_spec(poly_ints(s1@[k])),
{
    let mut s1_hat = [[0i32; 256]; L];
    for i in 0..L
        invariant
            forall|k: int| 0 <= k < i ==> #[trigger] poly_ints(s1_hat@[k]) == ntt_spec(poly_ints(s1@[k])),
    {
        s1_hat[i] = ntt(&s1[i]);
    }
    s1_hat
}

/// The coefficients lie in [0, q).
pub open spec fn canonical_poly(p: [i32; 256]) -> bool {
    forall|c: int| 0 <= c < 256 ==> 0 <= #[trigger] p@[c] < Q
}

/// Row i of a times the vector b, coefficient c, as a sum of products.
pub open spec fn row_dot(a: [[[i32; 256]; L]; K], b: [[i32; 256]; L], i: int, c: int, n: nat) -> int {
    dot_at(Seq::new(4, |k: int| poly_ints(a@[i]@[k])), Seq::new(4, |k: int| poly_ints(b@[k])), c, n)
}

/// The product of the matrix a and the vector b in the NTT domain.
pub fn mat_vec(a_hat: &[[[i32; 256]; L]; K], s1_hat: &[[i32; 256]; L]) -> (r: [[i32; 256]; K])
    requires
        forall|i: int, k: int| 0 <= i < 4 && 0 <= k < 4 ==> canonical_poly(#[trigger] a_hat@[i]@[k]),
        forall|k: int| 0 <= k < 4 ==> canonical_poly(#[trigger] s1_hat@[k]),
    ensures
        forall|i: int, c: int| 0 <= i < 4 && 0 <= c < 256 ==>
            (#[trigger] r@[i]@[c]) as int == canon(row_dot(*a_hat, *s1_hat, i, c, 4)),
{
    let mut prod_a_s1 = [[0i32; 256]; K];
    for i in 0..K
        invariant
            forall|i2: int, k: int| 0 <= i2 < 4 && 0 <= k < 4 ==> canonical_poly(#[trigger] a_hat@[i2]@[k]),
            forall|k: int| 0 <= k < 4 ==> canonical_poly(#[trigger] s1_hat@[k]),
            forall|i2: int, c: int| 0 <= i2 < i && 0 <= c < 256 ==>
                (#[trigger] prod_a_s1@[i2]@[c]) as int == canon(row_dot(*a_hat, *s1_hat, i2, c, 4)),
            forall|i2: int, c: int| i <= i2 < 4 && 0 <= c < 256 ==> (#[trigger] prod_a_s1@[i2]@[c]) == 0,
    {
        let a_row_poly = &a_hat[i];
        let mut acc = prod_a_s1[i];
        assert forall|c: int| 0 <= c < 256 implies (#[trigger] acc@[c]) as int == canon(row_dot(*a_hat, *s1_hat, i as int, c, 0)) by {}
        for k in 0..L
            invariant
                i < 4,
                a_row_poly == &a_hat[i as int],
                forall|i2: int, k2: int| 0 <= i2 < 4 && 0 <= k2 < 4 ==> canonical_poly(#[trigger] a_hat@[i2]@[k2]),
                forall|k2: int| 0 <= k2 < 4 ==> canonical_poly(#[trigger] s1_hat@[k2]),
                forall|c: int| 0 <= c < 256 ==> (#[trigger] acc@[c]) as int == canon(row_dot(*a_hat, *s1_hat, i as int, c, k as nat)),
        {
            assert(canonical_poly(a_row_poly[k as int]));
            assert(canonical_poly(s1_hat@[k as int]));
            proof {
                assert forall|c: int| 0 <= c < 256 implies abs_le(#[trigger] (a_row_poly[k as int]@[c] * s1_hat@[k as int]@[c])) by {
                    lemma_product_small(a_row_poly[k as int]@[c] as int, s1_hat@[k as int]@[c] as int);
                }
            }
            let m = ntt_multiply(&a_row_poly[k], &s1_hat[k]);
            proof {
                assert forall|c: int| 0 <= c < 256 implies i32::MIN <= #[trigger] acc@[c] + m@[c] <= i32::MAX by {
                    lemma_product_small(a_row_poly[k as int]@[c] as int, s1_hat@[k as int]@[c] as int);
                }
            }
            let ghost old_acc = acc;
            acc = ntt_add(&acc, &m);
            proof {
                assert forall|c: int| 0 <= c < 256 implies (#[trigger] acc@[c]) as int
                    == canon(row_dot(*a_hat, *s1_hat, i as int, c, (k + 1) as nat)) by {
                    let x = row_dot(*a_hat, *s1_hat, i as int, c, k as nat);
                    let y = a_row_poly[k as int]@[c] as int * s1_hat@[k as int]@[c] as int;
                    lemma_product_small(a_row_poly[k as int]@[c] as int, s1_hat@[k as int]@[c] as int);
                    assert(m@[c] as int == canon(y));
                    assert(old_acc@[c] as int == canon(x));
                    vstd::arithmetic::div_mod::lemma_add_mod_noop(x, y, Q as int);
                    assert(row_dot(*a_hat, *s1_hat, i as int, c, (k + 1) as nat) == x + y);
                }
            }
        }
        prod_a_s1[i] = acc;
    }
    prod_a_s1
}

/// |x| <= 2^60.
pub open spec fn abs_le(x: int) -> bool {
    -0x1000_0000_0000_0000 <= x <= 0x1000_0000_0000_0000
}

/// Products of two coefficients in [0, q) are small.
proof fn lemma_product_small(a: int, b: int)
    requires
        0 <= a < Q,
        0 <= b < Q,
    ensures
        abs_le(a * b),
        0 <= a * b <= 0x10_0000_0000_0000,
{
    assert(0 <= a * b <= 8380417 * 8380417) by (nonlinear_arith)
        requires 0 <= a < 8380417, 0 <= b < 8380417;
}

/// The inverse NTT of every polynomial of a vector.
pub fn intt_vec(prod: &[[i32; 256]; K]) -> (r: [[i32; 256]; K])
    requires
        forall|i: int| 0 <= i < 4 ==> canonical_poly(#[trigger] prod@[i]),
    ensures
        forall|i: int| 0 <= i < 4 ==> #[trigger] poly_ints(r@[i]) == intt_spec(poly_ints(prod@[i])),
{
    let mut r = [[0i32; 256]; K];
    for i in 0..K
        invariant
            forall|i2: int| 0 <= i2 < 4 ==> canonical_poly(#[trigger] prod@[i2]),
            forall|i2: int| 0 <= i2 < i ==> #[trigger] poly_ints(r@[i2]) == intt_spec(poly_ints(prod@[i2])),
    {
        assert(canonical_poly(prod@[i as int]));
        r[i] = ntt_inverse(&prod[i]);
    }
    r
}

/// Power2Round of every coefficient of a vector.
pub fn power2round_vec(t: &[[i32; 256]; K]) -> (res: ([[i32; 256]; K], [[i32; 256]; K]))
    requires
        forall|i: int| 0 <= i < 4 ==> canonical_poly(#[trigger] t@[i]),
    ensures
        forall|i: int, j: int| 0 <= i < 4 && 0 <= j < 256 ==> {
            &&& (#[trigger] res.0@[i]@[j]) as int == (t@[i]@[j] as int + 4095) / 8192
            &&& res.1@[i]@[j] as int == t@[i]@[j] as int - 8192 * res.0@[i]@[j] as int
            &&& 0 <= res.0@[i]@[j] < 1024
        },
        forall|i: int, j: int| 0 <= i < 4 && 0 <= j < 256 ==> -4096 < #[trigger] res.1@[i]@[j] <= 4096,
{
    let mut t0 = [[0i32; 256]; K];
    let mut t1 = [[0i32; 256]; K];
    for i in 0..K
        invariant
            forall|i2: int| 0 <= i2 < 4 ==> canonical_poly(#[trigger] t@[i2]),
            forall|i2: int, j: int| 0 <= i2 < i && 0 <= j < 256 ==> {
                &&& (#[trigger] t1@[i2]@[j]) as int == (t@[i2]@[j] as int + 4095) / 8192
                &&& t0@[i2]@[j] as int == t@[i2]@[j] as int - 8192 * t1@[i2]@[j] as int
                &&& 0 <= t1@[i2]@[j] < 1024
            },
            forall|i2: int, j: int| 0 <= i2 < i && 0 <= j < 256 ==> -4096 < #[trigger] t0@[i2]@[j] <= 4096,
    {
        let t_vec = &t[i];
        let mut hi = [0i32; 256];
        let mut lo = [0i32; 256];
        assert(canonical_poly(t@[i as int]));
        for j in 0..256
            invariant
                t_vec == &t[i as int],
                canonical_poly(*t_vec),
                forall|j2: int| 0 <= j2 < j ==> {
                    &&& (#[trigger] hi@[j2]) as int == (t_vec@[j2] as int + 4095) / 8192
                    &&& lo@[j2] as int == t_vec@[j2] as int - 8192 * hi@[j2] as int
                    &&& 0 <= hi@[j2] < 1024
                },
                forall|j2: int| 0 <= j2 < j ==> -4096 < #[trigger] lo@[j2] <= 4096,
        {
            assert(0 <= t_vec@[j as int] < Q);
            let (r1, r0) = power2round(t_vec[j]);
            hi[j] = r1;
            lo[j] = r0;
        }
        t1[i] = hi;
        t0[i] = lo;
    }
    (t1, t0)
}

/// Generates a key pair from the 32-byte seed xi (ML-DSA.KeyGen_internal).
///
/// The result is an error only when a rejection sampling finds fewer than 256 coefficients
/// in as much of its SHAKE stream as the machine can hold: `BadNTTPolySample` for the
/// matrix A, else `BadBoundedPolySample` for s1 and s2.
pub fn key_gen_internal(xi: &[u8; 32]) -> (r: Result<([u8; LEN_PUBLIC_KEY], [u8; LEN_PRIVATE_KEY]), MlDsaError>)
    ensures
        key_gen_result(xi@, r),
        r matches Ok((pk, sk)) ==> {
            &&& pk@.subrange(0, 32) == shake256_prefix(xi@ + seq![4u8, 4u8], 128).subrange(0, 32)
            &&& sk@.subrange(0, 32) == shake256_prefix(xi@ + seq![4u8, 4u8], 128).subrange(0, 32)
            &&& sk@.subrange(32, 64) == shake256_prefix(xi@ + seq![4u8, 4u8], 128).subrange(96, 128)
        },
{
    let mut rho = [0u8; 32];
    let mut rho_prime = [0u8; 64];
    let mut key = [0u8; 32];

    let mut d = [0u8; 34];
    put_bytes(&mut d, 0, xi);
    d[32] = K as u8;
    d[33] = L as u8;
    assert(d@ =~= kg_d(xi@));
    let seed = shake256(d.as_slice(), 128);
    assert(seed@ == kg_seed(xi@));
    for k in 0..32
        invariant
            seed@ == kg_seed(xi@),
            seed@.len() == 128,
            forall|m: int| 0 <= m < k ==> rho@[m] == seed@[m] && key@[m] == seed@[96 + m],
    {
        rho[k] = seed[k];
        key[k] = seed[96 + k];
    }
    for k in 0..64
        invariant
            seed@ == kg_seed(xi@),
            seed@.len() == 128,
            forall|m: int| 0 <= m < k ==> rho_prime@[m] == seed@[32 + m],
    {
        rho_prime[k] = seed[32 + k];
    }
    assert(rho@ =~= kg_rho(xi@));
    assert(rho_prime@ =~= kg_rho_prime(xi@));
    assert(key@ =~= kg_key(xi@));

    // Expand matrix.
    let a_hat = expand_a(&rho)?;
    // Sample short vectors s1 and s2.
    let (s1, s2) = match expand_s(&rho_prime) {
        Ok(v) => v,
        Err(e) => { return Err(e); },
    };
    proof { lemma_keygen_ranges(xi@, a_hat, s1, s2); }
    let s1_hat = ntt_vec(&s1);
    proof {
        assert forall|k: int| 0 <= k < 4 implies canonical_poly(#[trigger] s1_hat@[k]) by {
            assert(poly_ints(s1_hat@[k]) == ntt_spec(poly_ints(s1@[k])));
            assert forall|c: int| 0 <= c < 256 implies 0 <= #[trigger] s1_hat@[k]@[c] < Q by {
                assert(poly_ints(s1_hat@[k])[c] == s1_hat@[k]@[c] as int);
            }
        }
    }
    // multiply a_hat and s1_hat
    let prod_a_s1 = mat_vec(&a_hat, &s1_hat);
    let r = intt_vec(&prod_a_s1);
    let mut t = [[0i32; 256]; K];
    for i in 0..K
        invariant
            forall|i2: int, p: int| 0 <= i2 < 4 && 0 <= p < 256 ==> -2 <= #[trigger] s2@[i2]@[p] <= 2,
            forall|i2: int| 0 <= i2 < 4 ==> #[trigger] poly_ints(r@[i2]) == intt_spec(poly_ints(prod_a_s1@[i2])),
            forall|i2: int, p: int| 0 <= i2 < i && 0 <= p < 256 ==>
                (#[trigger] t@[i2]@[p]) as int == canon(r@[i2]@[p] + s2@[i2]@[p]),
    {
        proof { lemma_intt_range(poly_ints(prod_a_s1@[i as int]), r@[i as int]); }
        t[i] = vec_add(&r[i], &s2[i]);
    }
    let (t1, t0) = power2round_vec(&t);
    let pk = pk_encode(&rho, &t1);
    // public random
    let tr_vec = shake256(pk.as_slice(), 64);
    let mut tr = [0u8; 64];
    for k in 0..64
        invariant
            tr_vec@ == shake256_prefix(pk@, 64),
            tr_vec@.len() == 64,
            forall|m: int| 0 <= m < k ==> tr@[m] == tr_vec@[m],
    {
        tr[k] = tr_vec[k];
    }
    assert(tr@ =~= shake256_prefix(pk@, 64));
    let sk = sk_encode(&rho, &key, &tr, &s1, &s2, &t0);
    proof { lemma_keygen_spec(xi@, a_hat, s1, s2, s1_hat, prod_a_s1, r, t, t1, t0, pk, sk); }
    Ok((pk, sk))
}

proof fn lemma_ntt_accepted_range(xs: Seq<u8>, n: nat)
    ensures
        forall|k: int| 0 <= k < ntt_accepted(xs, n).len() ==> 0 <= #[trigger] ntt_accepted(xs, n)[k] < Q,
    decreases n,
{
    if n > 0 {
        lemma_ntt_accepted_range(xs, (n - 1) as nat);
        let prev = ntt_accepted(xs, (n - 1) as nat);
        let cur = ntt_accepted(xs, n);
        assert forall|k: int| 0 <= k < cur.len() implies 0 <= #[trigger] cur[k] < Q by {
            if k < prev.len() {
                assert(cur[k] == prev[k]);
            }
        }
    }
}

proof fn lemma_bounded_accepted_range(xs: Seq<u8>, n: nat)
    ensures
        forall|k: int| 0 <= k < bounded_accepted(xs, n).len() ==> -2 <= #[trigger] bounded_accepted(xs, n)[k] <= 2,
    decreases n,
{
    if n > 0 {
        lemma_bounded_accepted_range(xs, (n - 1) as nat);
        let prev = bounded_accepted(xs, (n - 1) as nat);
        let cur = bounded_accepted(xs, n);
        assert forall|k: int| 0 <= k < cur.len() implies -2 <= #[trigger] cur[k] <= 2 by {
            if k < prev.len() {
                assert(cur[k] == prev[k]);
            }
        }
    }
}

/// A sampled short polynomial has 256 coefficients in [-ETA, ETA].
pub proof fn lemma_bounded_sample_range(seed: Seq<u8>)
    requires
        bounded_sample(seed) is Some,
    ensures
        opt_poly(bounded_sample(seed)).len() == 256,
        forall|k: int| 0 <= k < 256 ==> -2 <= #[trigger] opt_poly(bounded_sample(seed))[k] <= 2,
{
    lemma_bounded_accepted_range(bounded_stream(seed), 2 * max_bounded_bytes());
    let acc = bounded_accepted(bounded_stream(seed), 2 * max_bounded_bytes());
    assert forall|k: int| 0 <= k < 256 implies -2 <= #[trigger] opt_poly(bounded_sample(seed))[k] <= 2 by {
        assert(opt_poly(bounded_sample(seed))[k] == acc[k]);
    }
}

/// Sampled entries of A lie in [0, q), sampled entries of s1 and s2 in [-ETA, ETA].
proof fn lemma_keygen_ranges(xi: Seq<u8>, a_hat: [[[i32; 256]; L]; K], s1: [[i32; 256]; L], s2: [[i32; 256]; K])
    requires
        forall|r: int, s: int| 0 <= r < 4 && 0 <= s < 4 ==>
            ntt_sample(a_seed(kg_rho(xi), r, s)) == Some(#[trigger] poly_ints(a_hat@[r]@[s])),
        forall|i: int| 0 <= i < 4 ==> bounded_sample(s_seed(kg_rho_prime(xi), i)) == Some(#[trigger] poly_ints(s1@[i])),
        forall|i: int| 0 <= i < 4 ==> bounded_sample(s_seed(kg_rho_prime(xi), i + 4)) == Some(#[trigger] poly_ints(s2@[i])),
    ensures
        forall|i: int, k: int| 0 <= i < 4 && 0 <= k < 4 ==> canonical_poly(#[trigger] a_hat@[i]@[k]),
        forall|i: int, p: int| 0 <= i < 4 && 0 <= p < 256 ==> -2 <= #[trigger] s1@[i]@[p] <= 2,
        forall|i: int, p: int| 0 <= i < 4 && 0 <= p < 256 ==> -2 <= #[trigger] s2@[i]@[p] <= 2,
{
    assert forall|i: int, k: int| 0 <= i < 4 && 0 <= k < 4 implies canonical_poly(#[trigger] a_hat@[i]@[k]) by {
        let seed = a_seed(kg_rho(xi), i, k);
        assert(ntt_sample(seed) == Some(poly_ints(a_hat@[i]@[k])));
        lemma_ntt_accepted_range(ntt_stream(seed), max_ntt_triples());
        assert forall|c: int| 0 <= c < 256 implies 0 <= #[trigger] a_hat@[i]@[k]@[c] < Q by {
            assert(poly_ints(a_hat@[i]@[k])[c] == ntt_accepted(ntt_stream(seed), max_ntt_triples())[c]);
        }
    }
    assert forall|i: int, p: int| 0 <= i < 4 && 0 <= p < 256 implies -2 <= #[trigger] s1@[i]@[p] <= 2 by {
        let seed = s_seed(kg_rho_prime(xi), i);
        assert(bounded_sample(seed) == Some(poly_ints(s1@[i])));
        lemma_bounded_accepted_range(bounded_stream(seed), 2 * max_bounded_bytes());
        assert(poly_ints(s1@[i])[p] == bounded_accepted(bounded_stream(seed), 2 * max_bounded_bytes())[p]);
    }
    assert forall|i: int, p: int| 0 <= i < 4 && 0 <= p < 256 implies -2 <= #[trigger] s2@[i]@[p] <= 2 by {
        let seed = s_seed(kg_rho_prime(xi), i + 4);
        assert(bounded_sample(seed) == Some(poly_ints(s2@[i])));
        lemma_bounded_accepted_range(bounded_stream(seed), 2 * max_bounded_bytes());
        assert(poly_ints(s2@[i])[p] == bounded_accepted(bounded_stream(seed), 2 * max_bounded_bytes())[p]);
    }
}

/// The inverse NTT has coefficients in [0, q).
proof fn lemma_intt_range(y: Seq<int>, r: [i32; 256])
    requires
        poly_ints(r) == intt_spec(y),
    ensures
        canonical_poly(r),
{
    assert forall|c: int| 0 <= c < 256 implies 0 <= #[trigger] r@[c] < Q by {
        assert(poly_ints(r)[c] == r@[c] as int);
    }
}

/// The vector t that key generation computes is kg_t.
proof fn lemma_keygen_t(xi: Seq<u8>, a_hat: [[[i32; 256]; L]; K], s1: [[i32; 256]; L], s2: [[i32; 256]; K],
    s1_hat: [[i32; 256]; L], prod: [[i32; 256]; K], r: [[i32; 256]; K], t: [[i32; 256]; K], i: int)
    requires
        0 <= i < 4,
        forall|r2: int, s: int| 0 <= r2 < 4 && 0 <= s < 4 ==>
            ntt_sample(a_seed(kg_rho(xi), r2, s)) == Some(#[trigger] poly_ints(a_hat@[r2]@[s])),
        forall|k: int| 0 <= k < 4 ==> bounded_sample(s_seed(kg_rho_prime(xi), k)) == Some(#[trigger] poly_ints(s1@[k])),
        forall|k: int| 0 <= k < 4 ==> bounded_sample(s_seed(kg_rho_prime(xi), k + 4)) == Some(#[trigger] poly_ints(s2@[k])),
        forall|k: int| 0 <= k < 4 ==> #[trigger] poly_ints(s1_hat@[k]) == ntt_spec(poly_ints(s1@[k])),
        forall|i2: int, c: int| 0 <= i2 < 4 && 0 <= c < 256 ==>
            (#[trigger] prod@[i2]@[c]) as int == canon(row_dot(a_hat, s1_hat, i2, c, 4)),
        forall|i2: int| 0 <= i2 < 4 ==> #[trigger] poly_ints(r@[i2]) == intt_spec(poly_ints(prod@[i2])),
        forall|i2: int, p: int| 0 <= i2 < 4 && 0 <= p < 256 ==>
            (#[trigger] t@[i2]@[p]) as int == canon(r@[i2]@[p] + s2@[i2]@[p]),
    ensures
        poly_ints(t@[i]) == kg_t(xi, i),
{
    let av = Seq::new(4, |k: int| kg_a(xi, i, k));
    let sv = Seq::new(4, |k: int| ntt_spec(kg_s1(xi, k)));
    assert(av =~= Seq::new(4, |k: int| poly_ints(a_hat@[i]@[k]))) by {
        assert forall|k: int| 0 <= k < 4 implies av[k] == poly_ints(a_hat@[i]@[k]) by {
            assert(ntt_sample(a_seed(kg_rho(xi), i, k)) == Some(poly_ints(a_hat@[i]@[k])));
        }
    }
    assert(sv =~= Seq::new(4, |k: int| poly_ints(s1_hat@[k]))) by {
        assert forall|k: int| 0 <= k < 4 implies sv[k] == poly_ints(s1_hat@[k]) by {
            assert(bounded_sample(s_seed(kg_rho_prime(xi), k)) == Some(poly_ints(s1@[k])));
            assert(poly_ints(s1_hat@[k]) == ntt_spec(poly_ints(s1@[k])));
        }
    }
    assert(poly_ints(prod@[i]) =~= kg_as1(xi, i)) by {
        assert forall|c: int| 0 <= c < 256 implies poly_ints(prod@[i])[c] == kg_as1(xi, i)[c] by {
            assert((prod@[i]@[c]) as int == canon(row_dot(a_hat, s1_hat, i, c, 4)));
        }
    }
    assert(poly_ints(r@[i]) == intt_spec(kg_as1(xi, i)));
    assert(bounded_sample(s_seed(kg_rho_prime(xi), i + 4)) == Some(poly_ints(s2@[i])));
    assert(poly_ints(t@[i]) =~= kg_t(xi, i)) by {
        assert forall|p: int| 0 <= p < 256 implies poly_ints(t@[i])[p] == kg_t(xi, i)[p] by {
            assert((t@[i]@[p]) as int == canon(r@[i]@[p] + s2@[i]@[p]));
            assert(poly_ints(r@[i])[p] == r@[i]@[p] as int);
            assert(poly_ints(s2@[i])[p] == s2@[i]@[p] as int);
        }
    }
}

/// The keys that key generation computes match the key generation of xi.
proof fn lemma_keygen_spec(xi: Seq<u8>, a_hat: [[[i32; 256]; L]; K], s1: [[i32; 256]; L], s2: [[i32; 256]; K],
    s1_hat: [[i32; 256]; L], prod: [[i32; 256]; K], r: [[i32; 256]; K], t: [[i32; 256]; K],
    t1: [[i32; 256]; K], t0: [[i32; 256]; K], pk: [u8; LEN_PUBLIC_KEY], sk: [u8; LEN_PRIVATE_KEY])
    requires
        forall|r2: int, s: int| 0 <= r2 < 4 && 0 <= s < 4 ==>
            ntt_sample(a_seed(kg_rho(xi), r2, s)) == Some(#[trigger] poly_ints(a_hat@[r2]@[s])),
        forall|k: int| 0 <= k < 4 ==> bounded_sample(s_seed(kg_rho_prime(xi), k)) == Some(#[trigger] poly_ints(s1@[k])),
        forall|k: int| 0 <= k < 4 ==> bounded_sample(s_seed(kg_rho_prime(xi), k + 4)) == Some(#[trigger] poly_ints(s2@[k])),
        forall|k: int| 0 <= k < 4 ==> #[trigger] poly_ints(s1_hat@[k]) == ntt_spec(poly_ints(s1@[k])),
        forall|i2: int, c: int| 0 <= i2 < 4 && 0 <= c < 256 ==>
            (#[trigger] prod@[i2]@[c]) as int == canon(row_dot(a_hat, s1_hat, i2, c, 4)),
        forall|i2: int| 0 <= i2 < 4 ==> #[trigger] poly_ints(r@[i2]) == intt_spec(poly_ints(prod@[i2])),
        forall|i2: int, p: int| 0 <= i2 < 4 && 0 <= p < 256 ==>
            (#[trigger] t@[i2]@[p]) as int == canon(r@[i2]@[p] + s2@[i2]@[p]),
        forall|i2: int, j: int| 0 <= i2 < 4 && 0 <= j < 256 ==> {
            &&& (#[trigger] t1@[i2]@[j]) as int == (t@[i2]@[j] as int + 4095) / 8192
            &&& t0@[i2]@[j] as int == t@[i2]@[j] as int - 8192 * t1@[i2]@[j] as int
        },
        pk@.subrange(0, 32) == kg_rho(xi),
        forall|i2: int| 0 <= i2 < 4 ==> bit_packed(#[trigger] pk@.subrange(32 + 320 * i2, 32 + 320 * i2 + 320),
            poly_ints(t1@[i2]), 1024),
        sk@.subrange(0, 32) == kg_rho(xi),
        sk@.subrange(32, 64) == kg_key(xi),
        sk@.subrange(64, 128) == shake256_prefix(pk@, 64),
        forall|i2: int| 0 <= i2 < 4 ==> bit_packed(#[trigger] sk@.subrange(sk_eta_offset(i2), sk_eta_offset(i2) + 96),
            eta_fields(s1@[i2]@), 8),
        forall|i2: int| 0 <= i2 < 4 ==> bit_packed(#[trigger] sk@.subrange(sk_eta_offset(4 + i2), sk_eta_offset(4 + i2) + 96),
            eta_fields(s2@[i2]@), 8),
        forall|i2: int| 0 <= i2 < 4 ==> bit_packed(#[trigger] sk@.subrange(sk_t0_offset(i2), sk_t0_offset(i2) + 416),
            t0_fields(t0@[i2]@), 8192),
    ensures
        kg_pk_matches(pk@, xi),
        kg_sk_matches(sk@, pk@, xi),
{
    assert forall|i: int| 0 <= i < 4 implies bit_packed(#[trigger] pk@.subrange(32 + 320 * i, 32 + 320 * i + 320), kg_t1(xi, i), 1024) by {
        lemma_keygen_t(xi, a_hat, s1, s2, s1_hat, prod, r, t, i);
        assert(poly_ints(t1@[i]) =~= kg_t1(xi, i)) by {
            assert forall|p: int| 0 <= p < 256 implies poly_ints(t1@[i])[p] == kg_t1(xi, i)[p] by {
                assert(poly_ints(t@[i])[p] == kg_t(xi, i)[p]);
            }
        }
    }
    assert forall|i: int| 0 <= i < 4 implies bit_packed(#[trigger] sk@.subrange(sk_eta_offset(i), sk_eta_offset(i) + 96),
        Seq::new(256, |p: int| 2 - kg_s1(xi, i)[p]), 8) by {
        assert(bounded_sample(s_seed(kg_rho_prime(xi), i)) == Some(poly_ints(s1@[i])));
        assert(eta_fields(s1@[i]@) =~= Seq::new(256, |p: int| 2 - kg_s1(xi, i)[p]));
    }
    assert forall|i: int| 0 <= i < 4 implies bit_packed(#[trigger] sk@.subrange(sk_eta_offset(4 + i), sk_eta_offset(4 + i) + 96),
        Seq::new(256, |p: int| 2 - kg_s2(xi, i)[p]), 8) by {
        assert(bounded_sample(s_seed(kg_rho_prime(xi), i + 4)) == Some(poly_ints(s2@[i])));
        assert(eta_fields(s2@[i]@) =~= Seq::new(256, |p: int| 2 - kg_s2(xi, i)[p]));
    }
    assert forall|i: int| 0 <= i < 4 implies bit_packed(#[trigger] sk@.subrange(sk_t0_offset(i), sk_t0_offset(i) + 416),
        Seq::new(256, |p: int| 4096 - kg_t0(xi, i)[p]), 8192) by {
        lemma_keygen_t(xi, a_hat, s1, s2, s1_hat, prod, r, t, i);
        assert(t0_fields(t0@[i]@) =~= Seq::new(256, |p: int| 4096 - kg_t0(xi, i)[p])) by {
            assert forall|p: int| 0 <= p < 256 implies t0_fields(t0@[i]@)[p] == 4096 - kg_t0(xi, i)[p] by {
                assert(poly_ints(t@[i])[p] == kg_t(xi, i)[p]);
                assert((t1@[i]@[p]) as int == (t@[i]@[p] as int + 4095) / 8192);
                assert(t0@[i]@[p] as int == t@[i]@[p] as int - 8192 * t1@[i]@[p] as int);
            }
        }
    }
}

/// Key generation expands the 34 bytes xi || K || L (K = L = 4) with SHAKE256 into
/// rho || rho' || K: the public and private keys start with its first 32 bytes, the private
/// key holds bytes 96 to 128 as K, and every seed of the matrix A and of s1 and s2 is taken
/// from rho and rho' (bytes 32 to 96).
pub proof fn lemma_keygen_seed_expansion(xi: Seq<u8>, pk: [u8; LEN_PUBLIC_KEY], sk: [u8; LEN_PRIVATE_KEY])
    requires
        key_gen_result(xi, Ok((pk, sk))),
    ensures
        pk@.subrange(0, 32) == shake256_prefix(xi + seq![4u8, 4u8], 128).subrange(0, 32),
        sk@.subrange(0, 32) == shake256_prefix(xi + seq![4u8, 4u8], 128).subrange(0, 32),
        sk@.subrange(32, 64) == shake256_prefix(xi + seq![4u8, 4u8], 128).subrange(96, 128),
        kg_rho(xi) == shake256_prefix(xi + seq![4u8, 4u8], 128).subrange(0, 32),
        kg_rho_prime(xi) == shake256_prefix(xi + seq![4u8, 4u8], 128).subrange(32, 96),
{
    assert(kg_pk_matches(pk@, xi) && kg_sk_matches(sk@, pk@, xi));
    assert(kg_d(xi) == xi + seq![4u8, 4u8]);
}

/// Two public keys that both match the key generation of xi are equal.
proof fn lemma_pk_unique(xi: Seq<u8>, pk1: [u8; LEN_PUBLIC_KEY], pk2: [u8; LEN_PUBLIC_KEY])
    requires
        kg_pk_matches(pk1@, xi),
        kg_pk_matches(pk2@, xi),
    ensures
        pk1 == pk2,
{
    assert forall|i: int| 0 <= i < 4 implies #[trigger] pk1@.subrange(32 + 320 * i, 32 + 320 * i + 320)
        == pk2@.subrange(32 + 320 * i, 32 + 320 * i + 320) by {
        lemma_bit_packed_unique(pk1@.subrange(32 + 320 * i, 32 + 320 * i + 320),
            pk2@.subrange(32 + 320 * i, 32 + 320 * i + 320), kg_t1(xi, i), 1024);
    }
    assert forall|j: int| 0 <= j < 1312 implies pk1@[j] == pk2@[j] by {
        if j < 32 {
            assert(pk1@[j] == pk1@.subrange(0, 32)[j] && pk2@[j] == pk2@.subrange(0, 32)[j]);
        } else {
            let i = (j - 32) / 320;
            let o = (j - 32) % 320;
            assert(0 <= i < 4);
            assert(j == 32 + 320 * i + o);
            assert(pk1@[j] == pk1@.subrange(32 + 320 * i, 32 + 320 * i + 320)[o]);
            assert(pk2@[j] == pk2@.subrange(32 + 320 * i, 32 + 320 * i + 320)[o]);
        }
    }
    assert(pk1 =~= pk2);
}

/// Two private keys that both match the key generation of xi, for one public key, are equal.
proof fn lemma_sk_unique(xi: Seq<u8>, pk: Seq<u8>, sk1: [u8; LEN_PRIVATE_KEY], sk2: [u8; LEN_PRIVATE_KEY])
    requires
        kg_sk_matches(sk1@, pk, xi),
        kg_sk_matches(sk2@, pk, xi),
    ensures
        sk1 == sk2,
{
    assert forall|i: int| 0 <= i < 8 implies #[trigger] sk1@.subrange(sk_eta_offset(i), sk_eta_offset(i) + 96)
        == sk2@.subrange(sk_eta_offset(i), sk_eta_offset(i) + 96) by {
        if i < 4 {
            lemma_bit_packed_unique(sk1@.subrange(sk_eta_offset(i), sk_eta_offset(i) + 96),
                sk2@.subrange(sk_eta_offset(i), sk_eta_offset(i) + 96), Seq::new(256, |p: int| 2 - kg_s1(xi, i)[p]), 8);
        } else {
            assert(sk_eta_offset(i) == sk_eta_offset(4 + (i - 4)));
            lemma_bit_packed_unique(sk1@.subrange(sk_eta_offset(i), sk_eta_offset(i) + 96),
                sk2@.subrange(sk_eta_offset(i), sk_eta_offset(i) + 96), Seq::new(256, |p: int| 2 - kg_s2(xi, i - 4)[p]), 8);
        }
    }
    assert forall|i: int| 0 <= i < 4 implies #[trigger] sk1@.subrange(sk_t0_offset(i), sk_t0_offset(i) + 416)
        == sk2@.subrange(sk_t0_offset(i), sk_t0_offset(i) + 416) by {
        lemma_bit_packed_unique(sk1@.subrange(sk_t0_offset(i), sk_t0_offset(i) + 416),
            sk2@.subrange(sk_t0_offset(i), sk_t0_offset(i) + 416), Seq::new(256, |p: int| 4096 - kg_t0(xi, i)[p]), 8192);
    }
    assert(sk1@.subrange(0, 32) == sk2@.subrange(0, 32));
    assert(sk1@.subrange(32, 64) == sk2@.subrange(32, 64));
    assert(sk1@.subrange(64, 128) == sk2@.subrange(64, 128));
    lemma_sk_from_segments(sk1, sk2);
}

/// Two private keys that agree on rho, K, tr and every packed polynomial are equal.
pub(crate) proof fn lemma_sk_from_segments(sk1: [u8; LEN_PRIVATE_KEY], sk2: [u8; LEN_PRIVATE_KEY])
    requires
        sk1@.subrange(0, 32) == sk2@.subrange(0, 32),
        sk1@.subrange(32, 64) == sk2@.subrange(32, 64),
        sk1@.subrange(64, 128) == sk2@.subrange(64, 128),
        forall|i: int| 0 <= i < 8 ==> #[trigger] sk1@.subrange(sk_eta_offset(i), sk_eta_offset(i) + 96)
            == sk2@.subrange(sk_eta_offset(i), sk_eta_offset(i) + 96),
        forall|i: int| 0 <= i < 4 ==> #[trigger] sk1@.subrange(sk_t0_offset(i), sk_t0_offset(i) + 416)
            == sk2@.subrange(sk_t0_offset(i), sk_t0_offset(i) + 416),
    ensures
        sk1 == sk2,
{
    assert forall|j: int| 0 <= j < 2560 implies sk1@[j] == sk2@[j] by {
        if j < 32 {
            assert(sk1@[j] == sk1@.subrange(0, 32)[j] && sk2@[j] == sk2@.subrange(0, 32)[j]);
        } else if j < 64 {
            assert(sk1@[j] == sk1@.subrange(32, 64)[j - 32] && sk2@[j] == sk2@.subrange(32, 64)[j - 32]);
        } else if j < 128 {
            assert(sk1@[j] == sk1@.subrange(64, 128)[j - 64] && sk2@[j] == sk2@.subrange(64, 128)[j - 64]);
        } else if j < 896 {
            let i = (j - 128) / 96;
            let o = (j - 128) % 96;
            assert(0 <= i < 8);
            assert(j == sk_eta_offset(i) + o);
            assert(sk1@[j] == sk1@.subrange(sk_eta_offset(i), sk_eta_offset(i) + 96)[o]);
            assert(sk2@[j] == sk2@.subrange(sk_eta_offset(i), sk_eta_offset(i) + 96)[o]);
        } else {
            let i = (j - 896) / 416;
            let o = (j - 896) % 416;
            assert(0 <= i < 4);
            assert(j == sk_t0_offset(i) + o);
            assert(sk1@[j] == sk1@.subrange(sk_t0_offset(i), sk_t0_offset(i) + 416)[o]);
            assert(sk2@[j] == sk2@.subrange(sk_t0_offset(i), sk_t0_offset(i) + 416)[o]);
        }
    }
    assert(sk1 =~= sk2);
}

/// Key generation is a function of the seed: any two results that key generation from
/// the seed xi may return are equal.
pub proof fn lemma_key_gen_deterministic(xi: Seq<u8>, r1: Result<([u8; LEN_PUBLIC_KEY], [u8; LEN_PRIVATE_KEY]), MlDsaError>,
    r2: Result<([u8; LEN_PUBLIC_KEY], [u8; LEN_PRIVATE_KEY]), MlDsaError>)
    requires
        key_gen_result(xi, r1),
        key_gen_result(xi, r2),
    ensures
        r1 == r2,
{
    match (r1, r2) {
        (Ok((pk1, sk1)), Ok((pk2, sk2))) => {
            lemma_pk_unique(xi, pk1, pk2);
            lemma_sk_unique(xi, pk1@, sk1, sk2);
        },
        _ => {},
    }
}

/// Generates a key pair from 32 bytes of the system random source (ML-DSA.KeyGen).
///
/// A failure of the random source is not reported: the seed buffer is used as the
/// source left it. The result is an error only when key generation from the seed is
/// (see `key_gen_internal`).
pub fn key_gen() -> (r: Result<([u8; LEN_PUBLIC_KEY], [u8; LEN_PRIVATE_KEY]), MlDsaError>)
    ensures
        exists|xi: Seq<u8>| xi.len() == 32 && #[trigger] key_gen_result(xi, r),
{
    let mut xi = [0u8; 32];
    let _ = match fill_random(&mut xi) {
        Ok(()) => Ok(()),
        Err(_) => Err(MlDsaError::RandomSeedGenError),
    };
    let r = key_gen_internal(&xi);
    assert(key_gen_result(xi@, r));
    r
}

} // verus!
