use threshold_decryption::mac::{AuthenticatedSharingScheme, MACSchemeParams};
use threshold_decryption::ring::{random_below_pow2, RingElement, SignedElement};
use threshold_decryption::sharing::AdditiveSecretSharing;

#[test]
fn test_batch_check() {
    let n = 4;
    let k = 8; // computation ring size = 2^k
    let s = 16; // security param
    let t = 3; // secret values count

    let params = MACSchemeParams::init(n, k, s, t);

    // s bits
    let alpha = random_below_pow2(params.s);

    let alpha_shares =
        AdditiveSecretSharing::share(&SignedElement::from_element(alpha), n, params.ks);

    let scheme = AuthenticatedSharingScheme::new(alpha, params);

    let mut x_shares_collection: Vec<Vec<RingElement>> = vec![Vec::new(); n];
    let mut x_values = Vec::new();
    for _ in 0..t {
        // k bits
        let x = random_below_pow2(k);
        let x_shares = AdditiveSecretSharing::share(
            &SignedElement::from_element(x),
            scheme.params.n,
            scheme.params.ks,
        );
        x_values.push(x);
        for (i, row) in x_shares_collection.iter_mut().enumerate() {
            row.push(x_shares[i]);
        }
    }

    let (x_tilde_shares, m_tilde_collection) = scheme.batch_open(&x_shares_collection);

    let checked_values = scheme.batch_check(&x_tilde_shares, &alpha_shares, &m_tilde_collection);
    assert!(checked_values.is_some());

    for (i, checked_value) in checked_values.unwrap().iter().enumerate() {
        assert_eq!(*checked_value, x_values[i]);
    }
}

#[test]
fn test_single_check() {
    let n = 4;
    let k = 8;
    let s = 16;
    let t = 1;

    let params = MACSchemeParams::init(n, k, s, t);

    // s bits
    let alpha = random_below_pow2(params.s);

    let alpha_shares =
        AdditiveSecretSharing::share(&SignedElement::from_element(alpha), params.n, params.ks);

    let scheme = AuthenticatedSharingScheme::new(alpha, params);

    // k bits
    let x = random_below_pow2(k);

    // shares
    let x_shares = AdditiveSecretSharing::share(
        &SignedElement::from_element(x),
        scheme.params.n,
        scheme.params.k,
    );

    let y_shares = scheme.single_open(&x_shares);

    let y = AdditiveSecretSharing::reveal_shares(&y_shares, scheme.params.ks);

    // Broadcast y
    let checked_value = scheme.single_check(&y, &alpha_shares);

    assert!(checked_value.is_some());
    assert_eq!(checked_value.unwrap(), x);
}
