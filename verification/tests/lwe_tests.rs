use threshold_decryption::lwe::LweScheme;
use threshold_decryption::ring::RingElement;

#[test]
fn test() {
    let q_exponent = 32;
    let p_exponent = 1;
    let dimension = 1024;
    let pk_rows = 1;

    let lwe = LweScheme::new(p_exponent, q_exponent, dimension, pk_rows);

    for m in 0..(1u64 << p_exponent) {
        let m_in = RingElement::from_u64(m);
        let (a, b) = lwe.encrypt(&m_in);
        let m_out = lwe.decrypt(&a, &b);
        assert_eq!(m_in, m_out);
    }
}

#[test]
fn wider_plaintexts_round_trip() {
    let lwe = LweScheme::new(4, 64, 256, 1);
    for m in [0u64, 1, 7, 15] {
        let m_in = RingElement::from_u64(m);
        let (a, b) = lwe.encrypt(&m_in);
        assert_eq!(lwe.decrypt(&a, &b), m_in);
    }
}
