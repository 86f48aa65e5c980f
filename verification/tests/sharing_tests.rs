use threshold_decryption::ring::{RingElement, SignedElement};
use threshold_decryption::sharing::AdditiveSecretSharing;

#[test]
fn test_add_shares() {
    let s1 = SignedElement::from_i64(50);
    let s2 = SignedElement::from_i64(100);
    let num_shares = 5;
    let field_exponent = 8;

    let shares1 = AdditiveSecretSharing::share(&s1, num_shares, field_exponent);
    let shares2 = AdditiveSecretSharing::share(&s2, num_shares, field_exponent);

    let s1_sub_s2 = AdditiveSecretSharing::sub(&shares1, &shares2, field_exponent);

    let _revealed = AdditiveSecretSharing::reveal_shares(&s1_sub_s2, field_exponent);
}

#[test]
fn test_share_reveal() {
    for s in [-257i64, -5, 0, 5, 257] {
        let secret = SignedElement::from_i64(s);
        let num_shares = 5;
        let field_exponent = 8;

        let shares = AdditiveSecretSharing::share(&secret, num_shares, field_exponent);

        // Verify that the number of shares is correct
        assert_eq!(shares.len(), num_shares);

        // Verify that the sum of shares is equal to the secret
        let revealed = AdditiveSecretSharing::reveal_shares(&shares, field_exponent);

        let expected = ((s % 256) + 256) % 256;
        assert_eq!(revealed, RingElement::from_u64(expected as u64));
    }
}

#[test]
fn toy_sharing_reveals_the_secret() {
    let shares = AdditiveSecretSharing::share(&SignedElement::from_i64(42), 3, 8);
    let revealed = AdditiveSecretSharing::reveal_shares(&shares, 8);
    assert_eq!(revealed, RingElement::from_u64(42));
}

#[test]
fn negative_secret_reveals_its_residue() {
    let shares = AdditiveSecretSharing::share(&SignedElement::from_i64(-5), 5, 8);
    let revealed = AdditiveSecretSharing::reveal_shares(&shares, 8);
    assert_eq!(revealed, RingElement::from_u64(251));
}

#[test]
fn single_party_sharing_is_the_residue() {
    let shares = AdditiveSecretSharing::share(&SignedElement::from_i64(300), 1, 8);
    assert_eq!(shares.len(), 1);
    let revealed = AdditiveSecretSharing::reveal_shares(&shares, 8);
    assert_eq!(revealed, RingElement::from_u64(44));
}
