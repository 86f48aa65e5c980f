use threshold_decryption::lwe::init_lwe_with_random_ptxt;
use threshold_decryption::mac::{AuthenticatedSharingScheme, MACSchemeParams};
use threshold_decryption::params::PublicParameters;
use threshold_decryption::protocol::Protocol;
use threshold_decryption::ring::{random_below_pow2, RingElement, SignedElement};
use threshold_decryption::sharing::AdditiveSecretSharing;

#[test]
fn test_decrypt_mac() {
    let k = 64; // Ciphertext bit length
    let mac_s = 80; // MAC Security parameter bit length
    let mac_t = 3; // MAC batch count
    let n = 4; // Number of parties
    let m = 1; // Plaintext bit length
    let b = 8; // "Digit" bit length
    let lwe_dimension = 1024;

    let params = PublicParameters::init(n, k, m, b, lwe_dimension, 0);

    let (lwe_scheme, ptxt, a, bb) = init_lwe_with_random_ptxt(params.m, params.k, params.lwe_dimension, 1);

    let s = random_below_pow2(params.d + 1);
    let r = random_below_pow2(params.l);
    let alpha = random_below_pow2(params.l);

    let mac_scheme_params = MACSchemeParams::init(n, k, mac_s, mac_t);

    let mac_scheme = AuthenticatedSharingScheme::new(alpha, mac_scheme_params);

    let alpha_shares = AdditiveSecretSharing::share(
        &SignedElement::from_element(alpha),
        params.n,
        mac_scheme_params.ks,
    );

    let mut protocol = Protocol::new(&params);

    for (i, party) in protocol.parties.iter_mut().enumerate() {
        party.set_mac_alpha(alpha_shares[i]);
    }

    protocol.preprocess(s, r);

    protocol.share_sk(lwe_scheme.sk);

    let out = protocol.decrypt(a, bb);

    assert_eq!(out, ptxt);

    let mut x_shares_collection: Vec<Vec<RingElement>> = Vec::new();
    for i in 0..n {
        x_shares_collection.push(vec![
            *protocol.parties[i].get_z_prime(),
            *protocol.parties[i].get_y_prime(),
            *protocol.parties[i].get_o_prime(),
        ]);
    }

    let (x_tilde_shares, m_tilde_collection) = mac_scheme.batch_open(&x_shares_collection);

    let checked_values = mac_scheme.batch_check(&x_tilde_shares, &alpha_shares, &m_tilde_collection);
    assert!(checked_values.is_some());
}

#[test]
fn test_decrypt() {
    let k = 64; // Ciphertext bit length
    let _mac_s = 80; // MAC Security parameter bit length
    let _mac_t = 3; // MAC batch count
    let n = 4; // Number of parties
    let m = 1; // Plaintext bit length
    let b = 7; // "Digit" bit length
    let lwe_dimension = 1024;

    let params = PublicParameters::init(n, k, m, b, lwe_dimension, 0);

    let (lwe_scheme, ptxt, a, bb) = init_lwe_with_random_ptxt(params.m, params.k, params.lwe_dimension, 1);

    let s = random_below_pow2(params.d + 1);
    let r = random_below_pow2(params.l);
    let _global_mac_key = random_below_pow2(params.l);

    let mut protocol = Protocol::new(&params);

    protocol.preprocess(s, r);

    protocol.share_sk(lwe_scheme.sk);

    let out = protocol.decrypt(a, bb);

    println!("{:#?}", out);
    println!("{:#?}", ptxt);
    assert_eq!(out, ptxt);
}

#[test]
fn debug_template() {
    let k = 64; // Ciphertext bit length
    let _mac_s = 16; // MAC Security parameter bit length
    let _mac_t = 3; // MAC batch count
    let n = 4; // Number of parties
    let m = 4; // Plaintext bit length
    let b = 8; // "Digit" bit length
    let lwe_dimension = 1024;

    let params = PublicParameters::init(n, k, m, b, lwe_dimension, 0);

    let s = random_below_pow2(params.d + 1);
    let r = random_below_pow2(params.l);

    // z drawn from the full ring
    let z = random_below_pow2(params.k);

    let mut protocol = Protocol::new(&params);
    protocol.preprocess(s, r);

    let _z_sub_e = protocol.noisy_decrypt(z);
}

#[test]
fn tampered_share_is_rejected() {
    // an honest run, then one party flips a bit of its o' share before
    // the MAC batch is opened: the check must refuse
    let params = PublicParameters::init(4, 64, 1, 7, 1024, 0);

    let (lwe_scheme, ptxt, a, bb) = init_lwe_with_random_ptxt(params.m, params.k, params.lwe_dimension, 1);

    let s = random_below_pow2(params.d + 1);
    let r = random_below_pow2(params.l);
    let alpha = random_below_pow2(params.l);

    let mac_scheme_params = MACSchemeParams::init(4, 64, 80, 3);
    let mac_scheme = AuthenticatedSharingScheme::new(alpha, mac_scheme_params);
    let alpha_shares = AdditiveSecretSharing::share(
        &SignedElement::from_element(alpha),
        params.n,
        mac_scheme_params.ks,
    );

    let mut protocol = Protocol::new(&params);
    protocol.preprocess(s, r);
    protocol.share_sk(lwe_scheme.sk);
    let out = protocol.decrypt(a, bb);
    assert_eq!(out, ptxt);

    let mut x_shares_collection: Vec<Vec<RingElement>> = Vec::new();
    for i in 0..4 {
        x_shares_collection.push(vec![
            *protocol.parties[i].get_z_prime(),
            *protocol.parties[i].get_y_prime(),
            *protocol.parties[i].get_o_prime(),
        ]);
    }

    let (mut x_tilde_shares, m_tilde_collection) = mac_scheme.batch_open(&x_shares_collection);

    // the tampering: the opened o' value is altered on the wire
    x_tilde_shares[2] = RingElement {
        lo: x_tilde_shares[2].lo ^ 1,
        mid: x_tilde_shares[2].mid,
        hi: x_tilde_shares[2].hi,
    };

    let checked = mac_scheme.batch_check(&x_tilde_shares, &alpha_shares, &m_tilde_collection);
    assert!(checked.is_none());
}
