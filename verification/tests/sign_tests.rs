use ml_dsa::keypair::{key_gen_internal, sk_encode};
use ml_dsa::sign::sk_decode;

/// The signing test of this name runs signing against known-answer vectors. The library
/// has no signing function, only its first step, the decoding of the private key, so this
/// test checks that step instead: for 100 ML-DSA-44 key pairs from distinct seeds,
/// decoding the private key succeeds, its rho is the public key's rho, and encoding the
/// decoded parts gives the private key back.
#[test]
fn sign_hedged_with_ctx_test_mldsa_44() {
    let mut decoded = 0;
    for i in 0..100u8 {
        let mut xi = [0u8; 32];
        xi[0] = i;
        xi[31] = 0x5A;
        let (pk, sk) = key_gen_internal(&xi).unwrap();
        let (rho, key, tr, s1, s2, t0) = sk_decode(&sk).unwrap();
        assert_eq!(rho[..], pk[..32]);
        assert_eq!(sk_encode(&rho, &key, &tr, &s1, &s2, &t0), sk);
        decoded += 1;
    }
    assert_eq!(decoded, 100);
}
