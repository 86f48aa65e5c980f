use threshold_decryption::ring::RingElement;
use threshold_decryption::utils::{print_binary_with_bits, round_div, ToBits, ToBitSegments};

#[test]
fn test_round_div_positive_numbers() {
    assert_eq!(round_div(7, 3), 2);
}

#[test]
fn test_round_div_negative_numbers() {
    assert_eq!(round_div(-7, 3), -2);
}

#[test]
fn test_round_div_round_up() {
    assert_eq!(round_div(8, 3), 3);
}

#[test]
fn test_round_div_round_down() {
    assert_eq!(round_div(4, 3), 1);
}

#[test]
fn test_round_div_exact_division() {
    assert_eq!(round_div(6, 3), 2);
}

#[test]
fn test_round_div_zero_dividend() {
    assert_eq!(round_div(0, 3), 0);
}

#[test]
fn test_round_div_half_q_round_up() {
    assert_eq!(round_div(5, 4), 1);
}

#[test]
fn test_round_div_half_q_round_down() {
    assert_eq!(round_div(-5, 4), -1);
}

#[test]
fn ties_round_away_from_zero() {
    assert_eq!(round_div(2, 4), 1);
    assert_eq!(round_div(-2, 4), -1);
    assert_eq!(round_div(6, 4), 2);
    assert_eq!(round_div(-6, 4), -2);
}

#[test]
fn binary_rendering_matches() {
    let x = RingElement::from_u64(13);
    assert_eq!(print_binary_with_bits(&x, 6), "001101");
    assert_eq!(x.to_bits(4), "13 [1101]");
    assert_eq!(x.to_bit_segments(2, 2), "13 [11|01]");
    assert_eq!(RingElement::from_u64(0).to_bits(3), "0 [000]");
    assert_eq!(RingElement::from_u64(255).to_bits(4), "255 [1111]");
}
