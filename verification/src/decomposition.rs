//! Little-endian digit expansion of a non-negative integer in a small base.
//!
//! The digit vector of 0 is empty, and a non-empty digit vector never ends
//! in a zero digit, so the expansion is canonical.

use vstd::prelude::*;

verus! {

use vstd::arithmetic::power::{pow, lemma_pow_adds, lemma_pow1};
use crate::ring::RingElement;

/// The number a little-endian digit vector stands for:
/// digits[0] + digits[1]*base + digits[2]*base^2 + ...
pub open spec fn digits_val(s: Seq<u64>, base: int) -> int
    decreases s.len(),
{
    if s.len() == 0 {
        0
    } else {
        digits_val(s.drop_last(), base) + s.last() * pow(base, (s.len() - 1) as nat)
    }
}

proof fn lemma_digits_push(s: Seq<u64>, x: u64, base: int)
    ensures
        digits_val(s.push(x), base) == digits_val(s, base) + x * pow(base, s.len()),
{
    assert(s.push(x).drop_last() =~= s);
}

/// Base decomposition: repeated division by the base, least significant
/// digit first.
pub struct BaseDecomposition {
    pub base: usize,
}

impl BaseDecomposition {
    /// The digits of `value` in this base, least significant first.
    /// The expansion is exact, every digit is below the base, and the
    /// most significant digit is never zero (so 0 has no digits).
    pub fn decompose(&self, value: &RingElement) -> (digits: Vec<u64>)
        requires
            2 <= self.base,
        ensures
            digits_val(digits@, self.base as int) == value.val(),
            forall|i: int| 0 <= i < digits@.len() ==> (#[trigger] digits@[i]) < self.base,
            digits@.len() > 0 ==> digits@.last() != 0,
            value.val() == 0 ==> digits@.len() == 0,
    {
        let base = self.base as u64;
        let ghost b = base as int;
        let mut digits: Vec<u64> = Vec::new();
        let mut x = *value;
        proof {
            vstd::arithmetic::power::lemma_pow0(b);
        }
        while !x.is_zero()
            invariant
                2 <= b,
                b == base as int,
                digits_val(digits@, b) + x.val() * pow(b, digits@.len()) == value.val(),
                forall|i: int| 0 <= i < digits@.len() ==> (#[trigger] digits@[i]) < base,
                digits@.len() > 0 && x.val() == 0 ==> digits@.last() != 0,
                pow(b, digits@.len()) > 0,
            decreases x.val(),
        {
            let (q, r) = x.div_rem_u64(base);
            proof {
                lemma_digits_push(digits@, r, b);
                lemma_pow1(b);
                lemma_pow_adds(b, digits@.len(), 1);
                // x = q*b + r, so x*b^j = r*b^j + q*b^(j+1)
                assert(x.val() * pow(b, digits@.len()) == r * pow(b, digits@.len()) + q.val() * (pow(
                b, digits@.len()) * b)) by (nonlinear_arith)
                    requires
                        x.val() == q.val() * b + r,
                ;
                // the quotient strictly shrinks, so the loop ends
                assert(q.val() < x.val()) by (nonlinear_arith)
                    requires
                        x.val() == q.val() * b + r,
                        r >= 0,
                        b >= 2,
                        x.val() > 0,
                ;
                // when the quotient hits zero the digit just pushed is x itself
                if q.val() == 0 {
                    assert(r > 0) by (nonlinear_arith)
                        requires
                            x.val() == q.val() * b + r,
                            q.val() == 0,
                            x.val() > 0,
                    ;
                }
                assert(pow(b, digits@.len() + 1) > 0) by (nonlinear_arith)
                    requires
                        pow(b, digits@.len()) > 0,
                        b >= 2,
                        pow(b, digits@.len() + 1) == pow(b, digits@.len()) * b,
                ;
            }
            digits.push(r);
            x = q;
        }
        proof {
            if value.val() == 0 && digits@.len() > 0 {
                // a canonical expansion of 0 cannot end in a non-zero digit
                lemma_digits_nonneg(digits@, b);
                vstd::arithmetic::power::lemma_pow_positive(b, (digits@.len() - 1) as nat);
                assert(digits@.last() * pow(b, (digits@.len() - 1) as nat) > 0) by (nonlinear_arith)
                    requires
                        digits@.last() >= 1,
                        pow(b, (digits@.len() - 1) as nat) > 0,
                ;
            }
        }
        digits
    }
}

/// A canonical digit vector (non-zero top digit) is at least as large as
/// the weight of its top digit.
pub proof fn lemma_digits_lower_bound(s: Seq<u64>, base: int)
    requires
        base >= 1,
        s.len() > 0,
        s.last() != 0,
    ensures
        digits_val(s, base) >= pow(base, (s.len() - 1) as nat),
{
    lemma_digits_nonneg(s, base);
    vstd::arithmetic::power::lemma_pow_positive(base, (s.len() - 1) as nat);
    vstd::arithmetic::mul::lemma_mul_inequality(1, s.last() as int, pow(base, (s.len() - 1) as nat) as int);
}

/// Digit values are never negative.
proof fn lemma_digits_nonneg(s: Seq<u64>, base: int)
    requires
        base >= 1,
    ensures
        digits_val(s, base) >= 0,
        s.len() > 0 ==> digits_val(s, base) >= s.last() * pow(base, (s.len() - 1) as nat),
    decreases s.len(),
{
    if s.len() > 0 {
        lemma_digits_nonneg(s.drop_last(), base);
        vstd::arithmetic::power::lemma_pow_positive(base, (s.len() - 1) as nat);
        assert(s.last() * pow(base, (s.len() - 1) as nat) >= 0) by (nonlinear_arith)
            requires
                s.last() >= 0,
                pow(base, (s.len() - 1) as nat) > 0,
        ;
    }
}

} // verus!
