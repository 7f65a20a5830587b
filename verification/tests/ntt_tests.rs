use ml_dsa::ntt::{mod_q, ntt, ntt_add, ntt_inverse, ntt_multiply, ntt_neg, ntt_neg_vec, ntt_sub, poly_add, poly_sub,
    pow_mod_q, ML_DSA_ZETAS};
use ml_dsa::params::{N, Q, ZETA};

fn random_coefficient() -> i32 {
    mod_q(getrandom::u32().unwrap() as i64)
}

#[test]
fn test_zetas_less_than_q() {
    for i in 0..N {
        assert!(ML_DSA_ZETAS[i] < Q);
    }
}

#[test]
fn test_ntt_conv_01() {
    // 1 + 200x + 300x^2 + 0^254 + 0^255;
    let mut w = [0i32; N];
    w[0] = mod_q(Q as i64 - 1);
    w[1] = 200;
    w[2] = 300;
    w[3] = mod_q(Q as i64);
    for i in 4..253 {
        w[i] = mod_q(getrandom::u32().unwrap() as i64);
    }
    w[253] = mod_q(-1);
    w[254] = 254;
    w[255] = Q - 2;

    let wh = ntt(&w);
    let _w = ntt_inverse(&wh);
    assert_eq!(w, _w);
}

#[test]
fn test_ntt_add_01() {
    let mut a = [0i32; N];
    let mut b = [0i32; N];
    for i in 0..N {
        a[i] = random_coefficient();
        b[i] = random_coefficient();
    }
    let r0 = ntt_inverse(&ntt_add(&ntt(&a), &ntt(&b)));
    let mut r1 = [0i32; N];
    for i in 0..N {
        r1[i] = mod_q((a[i] + b[i]) as i64);
    }
    assert_eq!(r0, r1);
}

#[test]
fn test_ntt_mult_01() {
    let mut a = [0i32; N];
    for i in 0..N {
        a[i] = random_coefficient();
    }
    let mut b = [0i32; N];
    b[0] = 256;
    let mut expected = [0i32; N];
    for i in 0..N {
        expected[i] = mod_q((256 * a[i]) as i64);
    }
    for i in 1..N {
        assert!(a[i] >= 0 && a[i] < Q)
    }
    for i in 1..N {
        assert!(b[i] >= 0 && b[i] < Q)
    }
    let r0 = ntt_inverse(&ntt_multiply(&ntt(&a), &ntt(&b)));
    assert_eq!(r0, expected);
}

fn bit_rev8(i: usize) -> u8 {
    (i as u8).reverse_bits()
}

#[test]
fn zetas_are_powers_of_zeta_at_bit_reversed_indices() {
    for i in 1..N {
        assert_eq!(pow_mod_q(ZETA, bit_rev8(i)), ML_DSA_ZETAS[i]);
    }
}

#[test]
fn pow_mod_q_values() {
    assert_eq!(pow_mod_q(2, 0), 1);
    assert_eq!(pow_mod_q(2, 10), 1024);
    assert_eq!(pow_mod_q(2, 23), 8191);
    assert_eq!(pow_mod_q(ZETA, 128), ML_DSA_ZETAS[1]);
    assert_eq!(pow_mod_q(0, 5), 0);
}

#[test]
fn mod_q_reduces_into_range() {
    assert_eq!(mod_q(0), 0);
    assert_eq!(mod_q(Q as i64), 0);
    assert_eq!(mod_q(Q as i64 - 1), Q - 1);
    assert_eq!(mod_q(-1), Q - 1);
    assert_eq!(mod_q(1 << 23), 8191);
    assert_eq!(mod_q(-(Q as i64) * 1000 + 5), 5);
    let big: i64 = (Q as i64) * (Q as i64) + 17;
    assert_eq!(mod_q(big), 17);
    assert_eq!(mod_q(1 << 52), ((1i64 << 52) % Q as i64) as i32);
    assert_eq!(mod_q(-(1 << 42)), ((-(1i64 << 42)).rem_euclid(Q as i64)) as i32);
}

#[test]
fn mod_q_is_canonical_for_large_negative_inputs() {
    assert_eq!(mod_q(-(1i64 << 47)), 8282127);
    assert_eq!(mod_q(-(1i64 << 46)), ((-(1i64 << 46)).rem_euclid(Q as i64)) as i32);
    for x in [-(1i64 << 60), -(1i64 << 55) + 12345, (1i64 << 60), (1i64 << 58) - 1, -(1i64 << 48) + 1, (1i64 << 48) - 1] {
        assert_eq!(mod_q(x) as i64, x.rem_euclid(Q as i64));
    }
}

#[test]
fn ntt_of_constant_is_constant() {
    let mut w = [0i32; N];
    w[0] = 5;
    let wh = ntt(&w);
    for c in 0..N {
        assert_eq!(wh[c], 5);
    }
}

#[test]
fn ntt_of_x_gives_the_roots() {
    // w = X: coefficient c of the NTT is the root +-zeta(128 + c / 2).
    let mut w = [0i32; N];
    w[1] = 1;
    let wh = ntt(&w);
    for c in 0..N {
        let z = ML_DSA_ZETAS[128 + c / 2];
        let root = if c % 2 == 0 { z } else { mod_q((Q - z) as i64) };
        assert_eq!(wh[c], root);
        // and each root is zeta^(2 * BitRev8(c) + 1)
        let e = 2 * (bit_rev8(c) as u32) + 1;
        let mut p: i64 = 1;
        for _ in 0..e {
            p = p * ZETA as i64 % Q as i64;
        }
        assert_eq!(wh[c] as i64, p);
    }
}

#[test]
fn ntt_inverse_undoes_ntt_for_edge_values() {
    let mut w = [0i32; N];
    for i in 0..N {
        w[i] = if i % 2 == 0 { Q - 1 } else { 0 };
    }
    assert_eq!(ntt_inverse(&ntt(&w)), w);
    let zero = [0i32; N];
    assert_eq!(ntt(&zero), zero);
    assert_eq!(ntt_inverse(&zero), zero);
}

#[test]
fn ntt_of_negative_coefficients() {
    let mut w = [0i32; N];
    for i in 0..N {
        w[i] = (i as i32 % 5) - 2;
    }
    let back = ntt_inverse(&ntt(&w));
    for i in 0..N {
        assert_eq!(back[i], mod_q(w[i] as i64));
    }
}

#[test]
fn pointwise_operations() {
    let mut a = [0i32; N];
    let mut b = [0i32; N];
    for i in 0..N {
        a[i] = (i as i32) * 1000;
        b[i] = Q - 1 - i as i32;
    }
    let s = ntt_add(&a, &b);
    let d = ntt_sub(&a, &b);
    let n = ntt_neg(&a);
    let m = ntt_multiply(&a, &b);
    let pa = poly_add(&a, &b);
    let ps = poly_sub(&a, &b);
    for i in 0..N {
        assert_eq!(s[i] as i64, (a[i] as i64 + b[i] as i64).rem_euclid(Q as i64));
        assert_eq!(d[i] as i64, (a[i] as i64 - b[i] as i64).rem_euclid(Q as i64));
        assert_eq!(n[i] as i64, (-(a[i] as i64)).rem_euclid(Q as i64));
        assert_eq!(m[i] as i64, (a[i] as i64 * b[i] as i64).rem_euclid(Q as i64));
        assert_eq!(pa[i], s[i]);
        assert_eq!(ps[i], a[i] - b[i]);
    }
    let v = [a, b];
    let nv = ntt_neg_vec(&v);
    assert_eq!(nv[0], ntt_neg(&a));
    assert_eq!(nv[1], ntt_neg(&b));
}

fn schoolbook_negacyclic(a: &[i32; N], b: &[i32; N]) -> [i32; N] {
    let q = Q as i64;
    let mut c = [0i64; N];
    for i in 0..N {
        for j in 0..N {
            let t = a[i] as i64 * b[j] as i64 % q;
            if i + j < N {
                c[i + j] = (c[i + j] + t) % q;
            } else {
                c[i + j - N] = (c[i + j - N] - t).rem_euclid(q);
            }
        }
    }
    let mut r = [0i32; N];
    for k in 0..N {
        r[k] = c[k].rem_euclid(q) as i32;
    }
    r
}

#[test]
fn ntt_product_is_negacyclic_product() {
    let mut a = [0i32; N];
    let mut b = [0i32; N];
    for i in 0..N {
        a[i] = random_coefficient();
        b[i] = ((i as i64 * 7919 + 13) % Q as i64) as i32;
    }
    let r0 = ntt_inverse(&ntt_multiply(&ntt(&a), &ntt(&b)));
    assert_eq!(r0, schoolbook_negacyclic(&a, &b));
}

#[test]
fn x_to_the_256_is_minus_one() {
    // X^255 * X = X^256 = -1 in Z_q[X]/(X^256 + 1).
    let mut a = [0i32; N];
    let mut b = [0i32; N];
    a[255] = 1;
    b[1] = 1;
    let r0 = ntt_inverse(&ntt_multiply(&ntt(&a), &ntt(&b)));
    let mut expected = [0i32; N];
    expected[0] = Q - 1;
    assert_eq!(r0, expected);
}

#[test]
fn zeta_is_a_primitive_512th_root_of_unity() {
    let q = Q as i64;
    // zeta^256 = (zeta^128)^2 = -1 and zeta^512 = 1.
    let z128 = pow_mod_q(ZETA, 128) as i64;
    let z256 = z128 * z128 % q;
    assert_eq!(z256, q - 1);
    assert_eq!(z256 * z256 % q, 1);
    // zeta^k != 1 for 0 < k < 512
    let mut p: i64 = 1;
    for k in 1..512u32 {
        p = p * ZETA as i64 % q;
        assert_ne!(p, 1, "zeta^{} = 1", k);
        if k < 256 {
            assert_eq!(p, pow_mod_q(ZETA, k as u8) as i64);
        }
    }
    // zeta^-m = -zeta^(256 - m) for 0 < m < 256, with zeta^-m = zeta^(512 - m) = zeta^256 * zeta^(256 - m)
    for m in 1..256u32 {
        let z = pow_mod_q(ZETA, (256 - m) as u8) as i64;
        let inv_m = z256 * z % q;
        assert_eq!(inv_m, (q - z) % q);
        assert_eq!(inv_m * pow_mod_q(ZETA, m as u8) as i64 % q, 1);
    }
}

#[test]
fn ntt_undoes_ntt_inverse() {
    let mut y = [0i32; N];
    for i in 0..N {
        y[i] = random_coefficient();
    }
    assert_eq!(ntt(&ntt_inverse(&y)), y);
    // any input within the accepted range comes back reduced modulo q
    let mut z = [0i32; N];
    for i in 0..N {
        z[i] = (i as i32 - 128) * 4_000_000;
    }
    let back = ntt(&ntt_inverse(&z));
    for i in 0..N {
        assert_eq!(back[i] as i64, (z[i] as i64).rem_euclid(Q as i64));
    }
}
