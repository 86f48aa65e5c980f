//! Rounded division on signed machine integers, and the textual
//! renderings of a ring element's value.

use vstd::prelude::*;

verus! {

use vstd::math::abs;
use vstd::arithmetic::power2::pow2;
use crate::ring::RingElement;

/// Relies on String::push: it appends exactly the given character.
pub assume_specification [ String::push ](s: &mut String, ch: char)
    ensures
        final(s)@ == old(s)@.push(ch),
;

/// Bit i of v (counting from the least significant), as a character.
pub open spec fn bit_char(v: nat, i: nat) -> char {
    if (v / pow2(i)) % 2 == 1 {
        '1'
    } else {
        '0'
    }
}

/// The low `bits` bits of v, most significant first: longer values are
/// truncated to their low bits, shorter ones padded with zeros.
pub open spec fn binary_chars(v: nat, bits: nat) -> Seq<char> {
    Seq::new(bits, |i: int| bit_char(v, (bits - 1 - i) as nat))
}

/// A decimal digit below ten, as a character.
pub open spec fn digit_char(d: nat) -> char {
    ((d + 0x30) as u8) as char
}

/// The decimal rendering of v, most significant digit first.
pub open spec fn decimal_chars(v: nat) -> Seq<char>
    decreases v,
{
    if v < 10 {
        seq![digit_char(v)]
    } else {
        decimal_chars(v / 10) + seq![digit_char(v % 10)]
    }
}

/// Append the decimal rendering of x.
fn push_decimal(out: &mut String, x: RingElement)
    ensures
        final(out)@ == old(out)@ + decimal_chars(x.val()),
    decreases x.val(),
{
    let (q, r) = x.div_rem_u64(10);
    if q.is_zero() {
        out.push((0x30 + r as u8) as char);
        proof {
            assert(final(out)@ =~= old(out)@ + decimal_chars(x.val()));
        }
    } else {
        proof {
            assert(q.val() * 10 >= 10) by (nonlinear_arith)
                requires
                    q.val() >= 1,
            ;
            assert(q.val() < x.val()) by (nonlinear_arith)
                requires
                    x.val() == q.val() * 10 + r,
                    r < 10,
                    q.val() >= 1,
            ;
            vstd::arithmetic::div_mod::lemma_fundamental_div_mod_converse(
                x.val() as int,
                10,
                q.val() as int,
                r as int,
            );
        }
        push_decimal(out, q);
        out.push((0x30 + r as u8) as char);
        proof {
            assert(final(out)@ =~= old(out)@ + decimal_chars(x.val()));
        }
    }
}

/// Append the low `bits` bits of x, most significant first.
fn push_binary(out: &mut String, x: &RingElement, bits: usize)
    ensures
        final(out)@ == old(out)@ + binary_chars(x.val(), bits as nat),
{
    let mut done: usize = 0;
    proof {
        assert(out@ =~= old(out)@ + binary_chars(x.val(), bits as nat).take(0));
    }
    while done < bits
        invariant
            done <= bits,
            out@ == old(out)@ + binary_chars(x.val(), bits as nat).take(done as int),
        decreases bits - done,
    {
        let pos = bits - 1 - done;
        let shifted = x.shr(pos);
        let (q2, bit) = shifted.div_rem_u64(2);
        proof {
            vstd::arithmetic::div_mod::lemma_fundamental_div_mod_converse(
                shifted.val() as int,
                2,
                q2.val() as int,
                bit as int,
            );
        }
        if bit == 1 {
            out.push('1');
        } else {
            out.push('0');
        }
        proof {
            assert(binary_chars(x.val(), bits as nat).take(done + 1) =~= binary_chars(
                x.val(),
                bits as nat,
            ).take(done as int).push(bit_char(x.val(), pos as nat)));
            assert(out@ =~= old(out)@ + binary_chars(x.val(), bits as nat).take(done + 1));
        }
        done = done + 1;
    }
    proof {
        assert(binary_chars(x.val(), bits as nat).take(bits as int) =~= binary_chars(
            x.val(),
            bits as nat,
        ));
    }
}

/// The decimal value followed by its bit string, in brackets.
pub trait ToBits {
    /// What the rendering shows.
    spec fn spec_to_bits(&self, bits: nat) -> Seq<char>;

    /// Render the value.
    fn to_bits(&self, bits: usize) -> (r: String)
        ensures
            r@ == self.spec_to_bits(bits as nat),
    ;
}

impl ToBits for RingElement {
    open spec fn spec_to_bits(&self, bits: nat) -> Seq<char> {
        decimal_chars(self.val()) + seq![' ', '['] + binary_chars(self.val(), bits) + seq![']']
    }

    fn to_bits(&self, bits: usize) -> (r: String)
        ensures
            r@ == self.spec_to_bits(bits as nat),
    {
        let mut out = String::new();
        push_decimal(&mut out, *self);
        out.push(' ');
        out.push('[');
        push_binary(&mut out, self, bits);
        out.push(']');
        proof {
            assert(out@ =~= self.spec_to_bits(bits as nat));
        }
        out
    }
}

/// The decimal value followed by its bit string split into an upper and a
/// lower segment.
pub trait ToBitSegments {
    /// What the rendering shows.
    spec fn spec_to_bit_segments(&self, upper_bits: nat, lower_bits: nat) -> Seq<char>;

    /// Render the value.
    fn to_bit_segments(&self, upper_bits: usize, lower_bits: usize) -> (r: String)
        ensures
            r@ == self.spec_to_bit_segments(upper_bits as nat, lower_bits as nat),
    ;
}

impl ToBitSegments for RingElement {
    open spec fn spec_to_bit_segments(&self, upper_bits: nat, lower_bits: nat) -> Seq<char> {
        decimal_chars(self.val()) + seq![' ', '['] + binary_chars(
            self.val() / pow2(lower_bits),
            upper_bits,
        ) + seq!['|'] + binary_chars(self.val(), lower_bits) + seq![']']
    }

    fn to_bit_segments(&self, upper_bits: usize, lower_bits: usize) -> (r: String)
        ensures
            r@ == self.spec_to_bit_segments(upper_bits as nat, lower_bits as nat),
    {
        let mut out = String::new();
        push_decimal(&mut out, *self);
        out.push(' ');
        out.push('[');
        let upper = self.shr(lower_bits);
        push_binary(&mut out, &upper, upper_bits);
        out.push('|');
        push_binary(&mut out, self, lower_bits);
        out.push(']');
        proof {
            assert(out@ =~= self.spec_to_bit_segments(upper_bits as nat, lower_bits as nat));
        }
        out
    }
}

/// The bit string of x alone, `b` positions wide.
pub fn print_binary_with_bits(x: &RingElement, b: usize) -> (r: String)
    ensures
        r@ == binary_chars(x.val(), b as nat),
{
    let mut out = String::new();
    push_binary(&mut out, x, b);
    proof {
        assert(out@ =~= binary_chars(x.val(), b as nat));
    }
    out
}

/// The integer nearest to x/q, ties rounding away from zero.
pub open spec fn round_div_spec(x: int, q: int) -> int
    recommends
        q != 0,
{
    let a = abs(x) as int;
    let b = abs(q) as int;
    let m: int = if 2 * (a % b) >= b {
        a / b + 1
    } else {
        a / b
    };
    if (x >= 0) == (q >= 0) {
        m
    } else {
        -m
    }
}

/// Nearest integer to x/q; a tie (when 2·remainder equals the divisor in
/// magnitude) rounds away from zero.
pub fn round_div(x: i128, q: i128) -> (r: i128)
    requires
        q != 0,
        x != i128::MIN,
        q != i128::MIN,
    ensures
        r == round_div_spec(x as int, q as int),
{
    let ax: u128 = if x >= 0 {
        x as u128
    } else {
        (-x) as u128
    };
    let aq: u128 = if q >= 0 {
        q as u128
    } else {
        (-q) as u128
    };
    let quo: u128 = ax / aq;
    let rem: u128 = ax % aq;
    proof {
        vstd::arithmetic::div_mod::lemma_mod_bound(ax as int, aq as int);
        vstd::arithmetic::div_mod::lemma_div_nonincreasing(ax as int, aq as int);
        vstd::arithmetic::div_mod::lemma_div_pos_is_pos(ax as int, aq as int);
    }
    let m: u128 = if 2 * rem >= aq {
        proof {
            // a tie or round-up forces a divisor of at least 2, so the
            // quotient leaves room for the increment
            vstd::arithmetic::div_mod::lemma_div_is_ordered_by_denominator(ax as int, 2, aq as int);
            vstd::arithmetic::div_mod::lemma_fundamental_div_mod(ax as int, 2);
            vstd::arithmetic::div_mod::lemma_mod_bound(ax as int, 2);
        }
        quo + 1
    } else {
        quo
    };
    if (x >= 0) == (q >= 0) {
        m as i128
    } else {
        -(m as i128)
    }
}

/// The result of `round_div_spec` is within half a divisor of the exact
/// quotient, and a tie lands on the side away from zero.
pub proof fn lemma_round_div_nearest(x: int, q: int)
    requires
        q != 0,
    ensures
        2 * abs(x - q * round_div_spec(x, q)) <= abs(q),
        2 * abs(x - q * round_div_spec(x, q)) == abs(q) ==> abs(q * round_div_spec(x, q)) >= abs(x),
{
    let a = abs(x) as int;
    let b = abs(q) as int;
    let r = round_div_spec(x, q);
    let m: int = if 2 * (a % b) >= b {
        a / b + 1
    } else {
        a / b
    };
    vstd::arithmetic::div_mod::lemma_fundamental_div_mod(a, b);
    vstd::arithmetic::div_mod::lemma_mod_bound(a, b);
    vstd::arithmetic::div_mod::lemma_div_pos_is_pos(a, b);
    // the error has the same magnitude whatever the signs are
    assert(abs(x - q * r) == abs(a - b * m)) by (nonlinear_arith)
        requires
            a == abs(x),
            b == abs(q),
            b > 0,
            r == (if (x >= 0) == (q >= 0) {
                m
            } else {
                -m
            }),
            m >= 0,
    ;
    assert(abs(q * r) == b * m) by (nonlinear_arith)
        requires
            a == abs(x),
            b == abs(q),
            b > 0,
            m >= 0,
            r == (if (x >= 0) == (q >= 0) {
                m
            } else {
                -m
            }),
    ;
    if 2 * (a % b) >= b {
        assert(a - b * m == (a % b) - b) by (nonlinear_arith)
            requires
                a == b * (a / b) + a % b,
                m == a / b + 1,
        ;
        assert(b * m >= a) by (nonlinear_arith)
            requires
                a == b * (a / b) + a % b,
                m == a / b + 1,
                a % b < b,
        ;
    } else {
        assert(a - b * m == a % b) by (nonlinear_arith)
            requires
                a == b * (a / b) + a % b,
                m == a / b,
        ;
    }
}

} // verus!
