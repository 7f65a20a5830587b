use ml_dsa::err::MlDsaError;
use ml_dsa::keypair::{bit_pack_eta, bit_pack_t0, coefficient_from_half_byte, coefficient_from_three_bytes, expand_a,
    expand_s, key_gen, key_gen_internal, pk_encode, power2round, reg_bounded_poly, reg_ntt_poly, simple_bit_pack,
    ntt_poly_from_stream, bounded_poly_from_stream, ntt_vec, mat_vec, intt_vec, power2round_vec,
    sk_encode, vec_add};
use ml_dsa::params::{LEN_PRIVATE_KEY, LEN_PUBLIC_KEY, Q};
use ml_dsa::sign::{bit_unpack_eta, bit_unpack_t0, inclusive, sk_decode};
use std::convert::TryInto;

#[test]
fn dry_512_keygen_test() {
    for _ in 0..128 {
        let (_, sk) = key_gen().unwrap();
        let _ = sk_decode(&sk).unwrap();
    }
}

#[test]
fn coefficient_from_three_bytes_cases() {
    assert_eq!(coefficient_from_three_bytes(0, 0, 0), Ok(0));
    assert_eq!(coefficient_from_three_bytes(1, 2, 3), Ok(3 * 65536 + 2 * 256 + 1));
    // the top bit of the last byte is ignored
    assert_eq!(coefficient_from_three_bytes(1, 2, 0x83), Ok(3 * 65536 + 2 * 256 + 1));
    // q - 1 = 0x7FE000 is accepted, q = 0x7FE001 is not
    assert_eq!(coefficient_from_three_bytes(0x00, 0xE0, 0x7F), Ok(Q - 1));
    assert_eq!(coefficient_from_three_bytes(0x01, 0xE0, 0x7F), Err(MlDsaError::BadNTTPolySample));
    assert_eq!(coefficient_from_three_bytes(0xFF, 0xFF, 0xFF), Err(MlDsaError::BadNTTPolySample));
}

#[test]
fn coefficient_from_half_byte_cases() {
    let expected = [2, 1, 0, -1, -2, 2, 1, 0, -1, -2, 2, 1, 0, -1, -2];
    for b in 0..15u8 {
        assert_eq!(coefficient_from_half_byte(b), Ok(expected[b as usize]));
    }
    assert_eq!(coefficient_from_half_byte(15), Err(MlDsaError::BadBoundedPolySample));
    assert_eq!(coefficient_from_half_byte(200), Err(MlDsaError::BadBoundedPolySample));
}

#[test]
fn power2round_cases() {
    assert_eq!(power2round(0), (0, 0));
    assert_eq!(power2round(4096), (0, 4096));
    assert_eq!(power2round(4097), (1, -4095));
    assert_eq!(power2round(8192), (1, 0));
    assert_eq!(power2round(Q - 1), (1023, Q - 1 - 1023 * 8192));
    for r in [1, 77, 4095, 12345, 999_999, 8_000_000] {
        let (r1, r0) = power2round(r);
        assert_eq!(r1 * 8192 + r0, r);
        assert!(-4096 < r0 && r0 <= 4096);
        assert!(0 <= r1 && r1 < 1024);
    }
}

#[test]
fn inclusive_cases() {
    assert!(inclusive(-2, 2, -2));
    assert!(inclusive(-2, 2, 2));
    assert!(!inclusive(-2, 2, 3));
    assert!(!inclusive(-2, 2, -3));
}

#[test]
fn slice_conversion_error_is_malformed_vector() {
    let s: &[u8] = &[1, 2, 3];
    let r: Result<[u8; 4], _> = s.try_into();
    let e: MlDsaError = r.unwrap_err().into();
    assert_eq!(e, MlDsaError::MalformedVector);
}

fn sample_t0() -> [i32; 256] {
    let mut t = [0i32; 256];
    for i in 0..256 {
        t[i] = ((i as i32 * 37) % 8192) - 4095;
    }
    t[0] = 4096;
    t[1] = -4095;
    t
}

#[test]
fn t0_pack_unpack_round_trip() {
    let t = sample_t0();
    let packed = bit_pack_t0(&t);
    let mut back = [0i32; 256];
    assert_eq!(bit_unpack_t0(&packed, &mut back), Ok(()));
    assert_eq!(back, t);
}

#[test]
fn t0_pack_layout() {
    let mut t = [4096i32; 256];
    t[0] = 4095; // field 1
    t[1] = 4094; // field 2
    let packed = bit_pack_t0(&t);
    // fields 1 and 2 at bits 0 and 13
    assert_eq!(packed[0], 1);
    assert_eq!(packed[1], 2 << 5);
    assert_eq!(packed[2], 0);
    assert!(packed[3..].iter().all(|&b| b == 0));
}

#[test]
fn eta_pack_unpack_round_trip() {
    let mut s = [0i32; 256];
    for i in 0..256 {
        s[i] = (i as i32 % 5) - 2;
    }
    let packed = bit_pack_eta(&s);
    let mut back = [0i32; 256];
    assert_eq!(bit_unpack_eta(&packed, &mut back), Ok(()));
    assert_eq!(back, s);
}

#[test]
fn eta_pack_layout() {
    let mut s = [2i32; 256];
    s[0] = 1; // field 1
    s[1] = -2; // field 4
    let packed = bit_pack_eta(&s);
    assert_eq!(packed[0], 1 | (4 << 3));
    assert!(packed[1..].iter().all(|&b| b == 0));
}

#[test]
fn eta_unpack_rejects_checked_out_of_range_fields() {
    // field 7 at position 1 decodes to 2 - 7 = -5, which the check visits
    let mut w = [0u8; 96];
    w[0] = 7 << 3;
    let mut s = [0i32; 256];
    assert_eq!(bit_unpack_eta(&w, &mut s), Err(MlDsaError::MalformedShortVector));
    assert_eq!(s[1], -5);
}

#[test]
fn eta_unpack_does_not_check_every_position() {
    // position 0 is not among the positions that the check visits
    let mut w = [0u8; 96];
    w[0] = 7;
    let mut s = [0i32; 256];
    assert_eq!(bit_unpack_eta(&w, &mut s), Ok(()));
    assert_eq!(s[0], -5);
    // nor is position 100
    let mut w = [0u8; 96];
    // field 100 starts at bit 300: byte 37, bit 4
    w[37] = 7 << 4;
    let mut s = [0i32; 256];
    assert_eq!(bit_unpack_eta(&w, &mut s), Ok(()));
    assert_eq!(s[100], -5);
}

#[test]
fn simple_bit_pack_layout() {
    let mut a = [0i32; 256];
    a[0] = 1023;
    a[1] = 1;
    let r = simple_bit_pack(&a, 1023);
    assert_eq!(r[0], 0xFF);
    assert_eq!(r[1], 0x03 | (1 << 2));
    assert!(r[2..].iter().all(|&b| b == 0));
}

#[test]
fn sampling_is_deterministic_and_in_range() {
    let mut seed = [0u8; 34];
    seed[0] = 42;
    let p = reg_ntt_poly(seed).unwrap();
    assert_eq!(p, reg_ntt_poly(seed).unwrap());
    assert!(p.iter().all(|&c| 0 <= c && c < Q));
    seed[33] = 1;
    assert_ne!(p, reg_ntt_poly(seed).unwrap());

    let mut rho = [0u8; 66];
    rho[5] = 9;
    let s = reg_bounded_poly(rho).unwrap();
    assert!(s.iter().all(|&c| -2 <= c && c <= 2));
    assert_eq!(s, reg_bounded_poly(rho).unwrap());
}

#[test]
fn expansions_follow_the_seeds() {
    let rho = [7u8; 32];
    let a = expand_a(&rho).unwrap();
    for r in 0..4 {
        for s in 0..4 {
            let mut seed = [0u8; 34];
            seed[..32].copy_from_slice(&rho);
            seed[32] = s as u8;
            seed[33] = r as u8;
            assert_eq!(a[r][s], reg_ntt_poly(seed).unwrap());
        }
    }
    let rho_prime = [3u8; 64];
    let (s1, s2) = expand_s(&rho_prime).unwrap();
    for i in 0..8 {
        let mut seed = [0u8; 66];
        seed[..64].copy_from_slice(&rho_prime);
        seed[64] = i as u8;
        let expected = reg_bounded_poly(seed).unwrap();
        if i < 4 {
            assert_eq!(s1[i], expected);
        } else {
            assert_eq!(s2[i - 4], expected);
        }
    }
}

#[test]
fn key_gen_internal_is_deterministic() {
    let xi = [1u8; 32];
    let (pk, sk) = key_gen_internal(&xi).unwrap();
    let (pk2, sk2) = key_gen_internal(&xi).unwrap();
    assert_eq!(pk, pk2);
    assert_eq!(sk, sk2);
    assert_eq!(pk.len(), LEN_PUBLIC_KEY);
    assert_eq!(sk.len(), LEN_PRIVATE_KEY);
    // rho starts both keys
    assert_eq!(pk[..32], sk[..32]);
    let (pk3, _) = key_gen_internal(&[2u8; 32]).unwrap();
    assert_ne!(pk, pk3);
}

#[test]
fn sk_decode_recovers_what_sk_encode_packed() {
    let xi = [5u8; 32];
    let (_, sk) = key_gen_internal(&xi).unwrap();
    let (rho, key, tr, s1, s2, t0) = sk_decode(&sk).unwrap();
    assert_eq!(rho[..], sk[..32]);
    assert_eq!(key[..], sk[32..64]);
    assert_eq!(tr[..], sk[64..128]);
    let sk_again = sk_encode(&rho, &key, &tr, &s1, &s2, &t0);
    assert_eq!(sk_again, sk);
    for p in s1.iter().chain(s2.iter()) {
        assert!(p.iter().all(|&c| -2 <= c && c <= 2));
    }
}

#[test]
fn sk_decode_rejects_a_malformed_short_vector() {
    let (_, mut sk) = key_gen_internal(&[9u8; 32]).unwrap();
    // the first packed polynomial of s2 starts at byte 512; make field 1 equal to 7
    sk[512] = (sk[512] & !(7 << 3)) | (7 << 3);
    assert_eq!(sk_decode(&sk), Err(MlDsaError::MalformedShortVector));
}

#[test]
fn pk_encode_layout() {
    let rho = [0xABu8; 32];
    let mut t1 = [[0i32; 256]; 4];
    t1[1][0] = 1023;
    let pk = pk_encode(&rho, &t1);
    assert_eq!(pk[..32], rho[..]);
    assert!(pk[32..352].iter().all(|&b| b == 0));
    assert_eq!(pk[352], 0xFF);
    assert_eq!(pk[353], 0x03);
}

#[test]
fn vec_add_reduces() {
    let mut a = [0i32; 256];
    let mut b = [0i32; 256];
    a[0] = Q - 1;
    b[0] = 2;
    a[1] = 0;
    b[1] = -2;
    let r = vec_add(&a, &b);
    assert_eq!(r[0], 1);
    assert_eq!(r[1], Q - 2);
}

#[test]
fn t0_bytes_unpack_pack_round_trip() {
    let mut w = [0u8; 416];
    for i in 0..416 {
        w[i] = (i * 131 + 17) as u8;
    }
    let mut t = [0i32; 256];
    assert_eq!(bit_unpack_t0(&w, &mut t), Ok(()));
    assert!(t.iter().all(|&c| -4096 < c && c <= 4096));
    assert_eq!(bit_pack_t0(&t), w);
}

#[test]
fn eta_bytes_unpack_pack_round_trip() {
    // every 3-bit field at most 4: fields k % 5 in order
    let mut fields = [0u32; 256];
    for k in 0..256 {
        fields[k] = (k as u32 * 3) % 5;
    }
    let mut w = [0u8; 96];
    for k in 0..256 {
        let bit = 3 * k;
        let v = fields[k] << (bit % 8);
        w[bit / 8] |= v as u8;
        if bit % 8 > 5 {
            w[bit / 8 + 1] |= (v >> 8) as u8;
        }
    }
    let mut s = [0i32; 256];
    assert_eq!(bit_unpack_eta(&w, &mut s), Ok(()));
    for k in 0..256 {
        assert_eq!(s[k], 2 - fields[k] as i32);
    }
    assert_eq!(bit_pack_eta(&s), w);
}

#[test]
fn simple_bit_pack_with_a_smaller_bound() {
    let mut a = [0i32; 256];
    for i in 0..256 {
        a[i] = (i as i32 * 7) % 301;
    }
    let r = simple_bit_pack(&a, 300);
    // the 10-bit fields read back
    for k in 0..256 {
        let bit = 10 * k;
        let lo = r[bit / 8] as u32 >> (bit % 8);
        let hi = (r[bit / 8 + 1] as u32) << (8 - bit % 8);
        assert_eq!(((lo | hi) & 0x3FF) as i32, a[k]);
    }
}

#[test]
fn ntt_poly_from_stream_keeps_candidates_below_q() {
    let mut xof = Vec::new();
    // a rejected candidate first, then 256 accepted ones
    xof.extend_from_slice(&[0x01, 0xE0, 0x7F]);
    for i in 0..256u32 {
        let v = i * 32000 + 5;
        xof.extend_from_slice(&[v as u8, (v >> 8) as u8, (v >> 16) as u8 | 0x80]);
    }
    let p = ntt_poly_from_stream(&xof).unwrap();
    for i in 0..256 {
        assert_eq!(p[i], i as i32 * 32000 + 5);
    }
    // one group short of 256 accepted ones
    assert_eq!(ntt_poly_from_stream(&xof[..xof.len() - 3]), Err(MlDsaError::BadNTTPolySample));
    // a trailing partial group is not read
    assert_eq!(ntt_poly_from_stream(&xof[..xof.len() - 1]), Err(MlDsaError::BadNTTPolySample));
    assert_eq!(ntt_poly_from_stream(&[]), Err(MlDsaError::BadNTTPolySample));
}

#[test]
fn bounded_poly_from_stream_reads_half_bytes_low_first() {
    // 0xF3: low half 3 gives 2 - 3 = -1, high half 15 is rejected
    // 0x72: low half 2 gives 0, high half 7 gives 2 - 2 = 0
    let mut xof = vec![0xF3u8, 0x72];
    // 127 bytes of 0x10: low half 0 gives 2, high half 1 gives 1
    xof.extend(std::iter::repeat(0x10u8).take(127));
    let p = bounded_poly_from_stream(&xof).unwrap();
    assert_eq!(p[0], -1);
    assert_eq!(p[1], 0);
    assert_eq!(p[2], 0);
    for k in 3..256 {
        assert_eq!(p[k], if k % 2 == 1 { 2 } else { 1 });
    }
    // the last accepted half byte of a byte may be left unused
    let mut more = xof.clone();
    more.push(0x10);
    assert_eq!(bounded_poly_from_stream(&more).unwrap(), p);
    assert_eq!(bounded_poly_from_stream(&xof[..xof.len() - 1]), Err(MlDsaError::BadBoundedPolySample));
}

fn negacyclic_product(a: &[i32; 256], b: &[i32; 256]) -> [i64; 256] {
    let q = Q as i64;
    let mut c = [0i64; 256];
    for i in 0..256 {
        for j in 0..256 {
            let t = a[i] as i64 * b[j] as i64;
            if i + j < 256 {
                c[i + j] = (c[i + j] + t).rem_euclid(q);
            } else {
                c[i + j - 256] = (c[i + j - 256] - t).rem_euclid(q);
            }
        }
    }
    c
}

#[test]
fn matrix_vector_product_in_the_ntt_domain() {
    // A in the coefficient domain, then in the NTT domain
    let mut a = [[[0i32; 256]; 4]; 4];
    let mut a_hat = [[[0i32; 256]; 4]; 4];
    for i in 0..4 {
        for k in 0..4 {
            for p in 0..256 {
                a[i][k][p] = ((i * 1000 + k * 100 + p * 7919) as i64 % Q as i64) as i32;
            }
            a_hat[i][k] = ml_dsa::ntt::ntt(&a[i][k]);
        }
    }
    let mut s1 = [[0i32; 256]; 4];
    for k in 0..4 {
        for p in 0..256 {
            s1[k][p] = ((k + 3 * p) % 5) as i32 - 2;
        }
    }
    let prod = intt_vec(&mat_vec(&a_hat, &ntt_vec(&s1)));
    for i in 0..4 {
        let mut expected = [0i64; 256];
        for k in 0..4 {
            let c = negacyclic_product(&a[i][k], &s1[k]);
            for p in 0..256 {
                expected[p] = (expected[p] + c[p]) % Q as i64;
            }
        }
        for p in 0..256 {
            assert_eq!(prod[i][p] as i64, expected[p]);
        }
    }
    let (t1, t0) = power2round_vec(&prod);
    for i in 0..4 {
        for p in 0..256 {
            assert_eq!(t1[i][p] * 8192 + t0[i][p], prod[i][p]);
            assert!(-4096 < t0[i][p] && t0[i][p] <= 4096);
        }
    }
}

#[test]
fn simple_bit_pack_with_a_bound_below_256() {
    // every byte of the result must stay below b; all-zero coefficients pass for b = 1
    let a = [0i32; 256];
    assert!(simple_bit_pack(&a, 1).iter().all(|&x| x == 0));
    let mut a = [0i32; 256];
    a[0] = 100;
    let r = simple_bit_pack(&a, 200);
    assert_eq!(r[0], 100);
    assert!(r[1..].iter().all(|&x| x == 0));
}
