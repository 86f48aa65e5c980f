use threshold_decryption::gates::{LessThanZeroFunction, PreprocessedGate, SignFunction};
use threshold_decryption::params::PublicParameters;
use threshold_decryption::ring::{RingElement, SignedElement};
use threshold_decryption::sharing::AdditiveSecretSharing;

#[test]
fn test_sign_gate() {
    let s = SignedElement::from_u64(5);
    let params = PublicParameters::default();

    let gate = PreprocessedGate::build(SignFunction, s, params.n, params.big_b, params.d + 1);

    let field_exponent = params.d + 1;
    let minus_one = RingElement::from_u64((params.big_d - 1) as u64);

    let s = 5usize;
    for i in 0..params.big_b {
        let index_shares = gate.get_table_index_shares(i);
        let reconstruct = AdditiveSecretSharing::reveal_shares(&index_shares, field_exponent);

        if i == s {
            assert_eq!(reconstruct, RingElement::zero());
        } else if i < s {
            assert_eq!(reconstruct, minus_one);
        } else if i > s {
            assert_eq!(reconstruct, RingElement::one());
        }
    }
}

#[test]
fn test_less_than_zero_gate() {
    let s = SignedElement::from_u64(5);

    let params = PublicParameters::default();

    let ltz_func = LessThanZeroFunction { modulo_exponent: params.d + 1 };

    let gate = PreprocessedGate::build(ltz_func, s, params.n, params.big_d, params.m);

    let s = 5usize;
    for i in 0..params.n {
        let index_shares = gate.get_table_index_shares(i);
        let reconstruct = AdditiveSecretSharing::reveal_shares(&index_shares, params.m);

        if i < s {
            assert_eq!(reconstruct, RingElement::one());
        } else if i <= s {
            assert_eq!(reconstruct, RingElement::zero());
        }
    }
}
