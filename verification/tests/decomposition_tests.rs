use threshold_decryption::decomposition::BaseDecomposition;
use threshold_decryption::ring::RingElement;

#[test]
fn test_digits_in_base_decimal() {
    let r = RingElement::from_u64(123456789);
    let base = 10;
    let converter = BaseDecomposition { base };

    let mut expected_digits: Vec<u64> = vec![1, 2, 3, 4, 5, 6, 7, 8, 9];
    expected_digits.reverse();
    assert_eq!(converter.decompose(&r), expected_digits);
}

#[test]
fn test_digits_in_base_binary() {
    let r = RingElement::from_u64(13);
    let base = 2;
    // Binary representation of 13 is 1101
    let mut expected_digits: Vec<u64> = vec![1, 1, 0, 1];
    expected_digits.reverse();

    let converter = BaseDecomposition { base };
    assert_eq!(converter.decompose(&r), expected_digits);
}

#[test]
fn test_digits_in_base_hexadecimal() {
    let r = RingElement::from_u64(255);
    let base = 16;
    // Hexadecimal representation of 255 is FF
    let mut expected_digits: Vec<u64> = vec![15, 15];
    expected_digits.reverse();

    let converter = BaseDecomposition { base };
    assert_eq!(converter.decompose(&r), expected_digits);
}

#[test]
fn test_digits_in_base_zero() {
    let r = RingElement::zero();
    let base = 10;
    let expected_digits: Vec<u64> = vec![];

    let converter = BaseDecomposition { base };
    assert_eq!(converter.decompose(&r), expected_digits);
}

#[test]
fn wide_values_decompose_exactly() {
    // a value above 64 bits round-trips through its digits
    let x = RingElement { lo: 0xdead_beef_0123_4567, mid: 0x89ab_cdef, hi: 0 };
    let digits = BaseDecomposition { base: 1 << 8 }.decompose(&x);
    let mut acc = RingElement::zero();
    for &d in digits.iter().rev() {
        acc = acc.mul_mod(RingElement::from_u64(256), 192);
        acc = acc.add_mod(RingElement::from_u64(d), 192);
    }
    assert_eq!(acc, x);
}
