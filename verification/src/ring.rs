//! Elements of the rings Z/2^e for exponents up to 192 bits.
//!
//! Every quantity the protocol manipulates lives in a ring of integers
//! modulo a power of two (the ciphertext ring 2^k, the noise ring 2^l, the
//! authenticated ring 2^(k+s), ...).  An element is stored as three 64-bit
//! little-endian limbs, so any exponent up to 192 is supported; the largest
//! ring the protocol uses is 2^(k+s).

use vstd::prelude::*;

verus! {

use vstd::arithmetic::power2::{
    pow2, lemma_pow2_adds, lemma_pow2_pos, lemma2_to64, lemma_pow2_strictly_increases,
};
use vstd::arithmetic::div_mod::{
    lemma_small_mod, lemma_mod_breakdown, lemma_mod_mod, lemma_mod_multiples_vanish,
    lemma_fundamental_div_mod, lemma_fundamental_div_mod_converse, lemma_mod_bound,
};
use vstd::arithmetic::mul::{lemma_mul_inequality, lemma_mul_is_distributive_add};
use vstd::bits::{
    low_bits_mask, lemma_u64_low_bits_mask_is_mod, lemma_u64_shl_is_mul, lemma_u128_shr_is_div,
};

/// Number of bits an element can hold: three 64-bit limbs.
pub const RING_BITS: usize = 192;

/// One element of Z/2^e (e <= 192), stored as little-endian 64-bit limbs.
#[derive(Clone, Copy, Debug, PartialEq, Eq, Structural)]
pub struct RingElement {
    pub lo: u64,
    pub mid: u64,
    pub hi: u64,
}

impl RingElement {
    /// The natural number this element stands for.
    pub open spec fn val(self) -> nat {
        (self.lo + self.mid * pow2(64) + self.hi * pow2(128)) as nat
    }

    pub fn zero() -> (r: Self)
        ensures
            r.val() == 0,
    {
        RingElement { lo: 0, mid: 0, hi: 0 }
    }

    pub fn one() -> (r: Self)
        ensures
            r.val() == 1,
    {
        RingElement { lo: 1, mid: 0, hi: 0 }
    }

    pub fn from_u64(x: u64) -> (r: Self)
        ensures
            r.val() == x,
    {
        RingElement { lo: x, mid: 0, hi: 0 }
    }

    pub fn from_u128(x: u128) -> (r: Self)
        ensures
            r.val() == x,
    {
        proof {
            lemma2_to64();
            lemma_u128_shr_is_div(x, 64);
            lemma_fundamental_div_mod(x as int, pow2(64) as int);
            assert((x as u64) as u128 == x % 0x1_0000_0000_0000_0000u128) by (bit_vector);
            assert((x >> 64) < 0x1_0000_0000_0000_0000u128) by (bit_vector);
        }
        RingElement { lo: x as u64, mid: (x >> 64) as u64, hi: 0 }
    }
}

/// Every element is below 2^192.
pub proof fn lemma_val_bound(x: RingElement)
    ensures
        x.val() < pow2(192),
{
    lemma2_to64();
    lemma_pow2_adds(64, 64);
    lemma_pow2_adds(64, 128);
    assert(x.mid * pow2(64) <= (pow2(64) - 1) * pow2(64)) by {
        lemma_mul_inequality(x.mid as int, pow2(64) as int - 1, pow2(64) as int);
    }
    assert(x.hi * pow2(128) <= (pow2(64) - 1) * pow2(128)) by {
        lemma_mul_inequality(x.hi as int, pow2(64) as int - 1, pow2(128) as int);
    }
    assert((pow2(64) - 1) * pow2(64) == pow2(128) - pow2(64)) by {
        lemma_mul_is_distributive_add(pow2(64) as int, pow2(64) as int, -1);
    }
    assert((pow2(64) - 1) * pow2(128) == pow2(192) - pow2(128)) by {
        lemma_mul_is_distributive_add(pow2(128) as int, pow2(64) as int, -1);
    }
}

/// 2^e for e <= 192 divides 2^192, so reducing mod 2^192 first is harmless.
pub proof fn lemma_mod_pow2_still_mod(x: int, e: nat)
    requires
        e <= 192,
    ensures
        (x % (pow2(192) as int)) % (pow2(e) as int) == x % (pow2(e) as int),
{
    lemma_pow2_pos(e);
    lemma_pow2_pos((192 - e) as nat);
    lemma_pow2_adds(e, (192 - e) as nat);
    lemma_mod_mod(x, pow2(e) as int, pow2((192 - e) as nat) as int);
}

/// Mask with the low `b` bits set, for `b` < 64.
fn mask64(b: usize) -> (m: u64)
    requires
        b < 64,
    ensures
        m == low_bits_mask(b as nat),
{
    proof {
        vstd::bits::lemma_u64_pow2_no_overflow(b as nat);
        lemma_pow2_pos(b as nat);
        lemma_u64_shl_is_mul(1u64, b as u64);
    }
    (1u64 << (b as u64)) - 1
}

/// Masking a limb with the low `b`-bit mask is reduction mod 2^b.
proof fn lemma_mask_is_mod(x: u64, m: u64, b: nat)
    requires
        b < 64,
        m == low_bits_mask(b),
    ensures
        (x & m) == (x as int) % (pow2(b) as int),
        (x & m) < pow2(b),
{
    vstd::bits::lemma_u64_pow2_no_overflow(b);
    lemma_pow2_pos(b);
    lemma_u64_low_bits_mask_is_mod(x, b);
    lemma_mod_bound(x as int, pow2(b) as int);
}

impl RingElement {
    /// Reduce modulo 2^e: keep only the low e bits.
    pub fn reduce(self, e: usize) -> (r: Self)
        ensures
            r.val() == self.val() % pow2(e as nat),
    {
        proof {
            lemma_val_bound(self);
            lemma2_to64();
            lemma_pow2_adds(64, 64);
        }
        if e >= 192 {
            proof {
                if e > 192 {
                    lemma_pow2_strictly_increases(192, e as nat);
                }
                lemma_small_mod(self.val(), pow2(e as nat));
            }
            self
        } else if e >= 128 {
            let b = e - 128;
            let m = mask64(b);
            let r = RingElement { lo: self.lo, mid: self.mid, hi: self.hi & m };
            proof {
                lemma_mask_is_mod(self.hi, m, b as nat);
                lemma_pow2_pos(b as nat);
                lemma_pow2_adds(128, b as nat);
                // self.val() = (lo + mid*2^64) + hi*2^128, with the first part < 2^128
                assert(self.lo + self.mid * pow2(64) < pow2(128)) by {
                    lemma_mul_inequality(self.mid as int, pow2(64) as int - 1, pow2(64) as int);
                    lemma_mul_is_distributive_add(pow2(64) as int, pow2(64) as int, -1);
                }
                lemma_fundamental_div_mod_converse(
                    self.val() as int,
                    pow2(128) as int,
                    self.hi as int,
                    (self.lo + self.mid * pow2(64)) as int,
                );
                lemma_mod_breakdown(self.val() as int, pow2(128) as int, pow2(b as nat) as int);
                assert(pow2(128) * ((self.hi as int) % (pow2(b as nat) as int))
                    == ((self.hi & m) as int) * pow2(128)) by {
                    vstd::arithmetic::mul::lemma_mul_is_commutative(
                        pow2(128) as int,
                        (self.hi & m) as int,
                    );
                }
            }
            r
        } else if e >= 64 {
            let b = e - 64;
            let m = mask64(b);
            let r = RingElement { lo: self.lo, mid: self.mid & m, hi: 0 };
            proof {
                lemma_mask_is_mod(self.mid, m, b as nat);
                lemma_pow2_pos(b as nat);
                lemma_pow2_adds(64, b as nat);
                lemma_pow2_adds(64, 64);
                // self.val() = lo + 2^64 * (mid + hi*2^64), lo < 2^64
                assert(self.val() == self.lo + pow2(64) * (self.mid + self.hi * pow2(64))) by {
                    lemma_mul_is_distributive_add(
                        pow2(64) as int,
                        self.mid as int,
                        (self.hi * pow2(64)) as int,
                    );
                    vstd::arithmetic::mul::lemma_mul_is_associative(
                        self.hi as int,
                        pow2(64) as int,
                        pow2(64) as int,
                    );
                }
                lemma_fundamental_div_mod_converse(
                    self.val() as int,
                    pow2(64) as int,
                    (self.mid + self.hi * pow2(64)) as int,
                    self.lo as int,
                );
                lemma_mod_breakdown(self.val() as int, pow2(64) as int, pow2(b as nat) as int);
                // (mid + hi*2^64) % 2^b == mid % 2^b since 2^b divides 2^64
                lemma_pow2_adds(b as nat, (64 - b) as nat);
                assert((self.mid + self.hi * pow2(64)) % (pow2(b as nat) as int)
                    == (self.mid as int) % (pow2(b as nat) as int)) by {
                    assert(self.hi * pow2(64) == pow2(b as nat) * (self.hi * pow2((64 - b) as nat)))
                        by {
                        vstd::arithmetic::mul::lemma_mul_is_associative(
                            self.hi as int,
                            pow2(b as nat) as int,
                            pow2((64 - b) as nat) as int,
                        );
                        vstd::arithmetic::mul::lemma_mul_is_commutative(
                            self.hi as int,
                            pow2(b as nat) as int,
                        );
                        vstd::arithmetic::mul::lemma_mul_is_associative(
                            pow2(b as nat) as int,
                            self.hi as int,
                            pow2((64 - b) as nat) as int,
                        );
                    }
                    lemma_mod_multiples_vanish(
                        self.hi * pow2((64 - b) as nat) as int,
                        self.mid as int,
                        pow2(b as nat) as int,
                    );
                }
                assert(pow2(64) * ((self.mid as int) % (pow2(b as nat) as int))
                    == ((self.mid & m) as int) * pow2(64)) by {
                    vstd::arithmetic::mul::lemma_mul_is_commutative(
                        pow2(64) as int,
                        (self.mid & m) as int,
                    );
                }
            }
            r
        } else {
            let m = mask64(e);
            let r = RingElement { lo: self.lo & m, mid: 0, hi: 0 };
            proof {
                lemma_mask_is_mod(self.lo, m, e as nat);
                lemma_pow2_pos(e as nat);
                lemma_pow2_adds(e as nat, (64 - e) as nat);
                lemma_pow2_adds(e as nat, (128 - e) as nat);
                // mid*2^64 and hi*2^128 vanish mod 2^e
                assert(self.val() as int % (pow2(e as nat) as int) == (self.lo as int) % (
                pow2(e as nat) as int)) by {
                    assert(self.mid * pow2(64) + self.hi * pow2(128) == pow2(e as nat) * (
                    self.mid * pow2((64 - e) as nat) + self.hi * pow2((128 - e) as nat)))
                        by (nonlinear_arith)
                        requires
                            pow2(64) == pow2(e as nat) * pow2((64 - e) as nat),
                            pow2(128) == pow2(e as nat) * pow2((128 - e) as nat),
                    ;
                    lemma_mod_multiples_vanish(
                        (self.mid * pow2((64 - e) as nat) + self.hi * pow2((128 - e) as nat)) as int,
                        self.lo as int,
                        pow2(e as nat) as int,
                    );
                }
            }
            r
        }
    }
}

/// A `u128` split at bit 64: low limb plus 2^64 times the high part.
proof fn lemma_split_u128(s: u128)
    ensures
        s == (s as u64) + pow2(64) * ((s >> 64) as u64),
        (s >> 64) < pow2(64),
{
    lemma2_to64();
    assert(s == ((s as u64) as u128) + 0x1_0000_0000_0000_0000u128 * (s >> 64)) by (bit_vector);
    assert((s >> 64) < 0x1_0000_0000_0000_0000u128) by (bit_vector);
}

impl RingElement {
    /// Sum modulo 2^e.
    pub fn add_mod(self, other: Self, e: usize) -> (r: Self)
        requires
            e <= 192,
        ensures
            r.val() == (self.val() + other.val()) % pow2(e as nat),
    {
        let s0: u128 = self.lo as u128 + other.lo as u128;
        let r0: u64 = s0 as u64;
        let c0: u64 = (s0 >> 64) as u64;
        let s1: u128 = self.mid as u128 + other.mid as u128 + c0 as u128;
        let r1: u64 = s1 as u64;
        let c1: u64 = (s1 >> 64) as u64;
        let s2: u128 = self.hi as u128 + other.hi as u128 + c1 as u128;
        let r2: u64 = s2 as u64;
        let w = RingElement { lo: r0, mid: r1, hi: r2 };
        proof {
            let c2 = (s2 >> 64) as u64;
            lemma2_to64();
            lemma_pow2_adds(64, 64);
            lemma_pow2_adds(64, 128);
            lemma_split_u128(s0);
            lemma_split_u128(s1);
            lemma_split_u128(s2);
            assert(self.val() + other.val() == w.val() + pow2(192) * c2) by (nonlinear_arith)
                requires
                    s0 == self.lo + other.lo,
                    s1 == self.mid + other.mid + c0,
                    s2 == self.hi + other.hi + c1,
                    s0 == r0 + pow2(64) * c0,
                    s1 == r1 + pow2(64) * c1,
                    s2 == r2 + pow2(64) * c2,
                    pow2(128) == pow2(64) * pow2(64),
                    pow2(192) == pow2(64) * pow2(128),
                    self.val() == self.lo + self.mid * pow2(64) + self.hi * pow2(128),
                    other.val() == other.lo + other.mid * pow2(64) + other.hi * pow2(128),
                    w.val() == r0 + r1 * pow2(64) + r2 * pow2(128),
            ;
            lemma_val_bound(w);
            lemma_mod_multiples_vanish(c2 as int, w.val() as int, pow2(192) as int);
            lemma_small_mod(w.val(), pow2(192));
            lemma_mod_pow2_still_mod((self.val() + other.val()) as int, e as nat);
        }
        w.reduce(e)
    }

    /// Difference modulo 2^e (floor-mod: the result is in [0, 2^e)).
    pub fn sub_mod(self, other: Self, e: usize) -> (r: Self)
        requires
            e <= 192,
        ensures
            r.val() == (self.val() as int - other.val() as int) % (pow2(e as nat) as int),
    {
        let d0: u128 = 0x1_0000_0000_0000_0000u128 + self.lo as u128 - other.lo as u128;
        let r0: u64 = d0 as u64;
        proof {
            assert(d0 >> 64 <= 1) by (bit_vector)
                requires
                    d0 < 0x2_0000_0000_0000_0000u128,
            ;
        }
        let k0: u64 = (d0 >> 64) as u64;
        let d1: u128 = 0x1_0000_0000_0000_0000u128 + self.mid as u128 - other.mid as u128 - (1
            - k0) as u128;
        let r1: u64 = d1 as u64;
        proof {
            assert(d1 >> 64 <= 1) by (bit_vector)
                requires
                    d1 < 0x2_0000_0000_0000_0000u128,
            ;
        }
        let k1: u64 = (d1 >> 64) as u64;
        let d2: u128 = 0x1_0000_0000_0000_0000u128 + self.hi as u128 - other.hi as u128 - (1
            - k1) as u128;
        let r2: u64 = d2 as u64;
        proof {
            assert(d2 >> 64 <= 1) by (bit_vector)
                requires
                    d2 < 0x2_0000_0000_0000_0000u128,
            ;
        }
        let w = RingElement { lo: r0, mid: r1, hi: r2 };
        proof {
            let x = pow2(64) as int;
            let k2 = ((d2 >> 64) as u64) as int;
            lemma2_to64();
            lemma_pow2_adds(64, 64);
            lemma_pow2_adds(64, 128);
            lemma_split_u128(d0);
            lemma_split_u128(d1);
            lemma_split_u128(d2);
            lemma_sub_chain(
                x,
                self.lo as int,
                self.mid as int,
                self.hi as int,
                other.lo as int,
                other.mid as int,
                other.hi as int,
                d0 as int,
                r0 as int,
                k0 as int,
                d1 as int,
                r1 as int,
                k1 as int,
                d2 as int,
                r2 as int,
                k2,
            );
            assert(self.val() == self.lo + self.mid * x + self.hi * (x * x));
            assert(other.val() == other.lo + other.mid * x + other.hi * (x * x));
            assert(w.val() == r0 + r1 * x + r2 * (x * x));
            assert(pow2(192) as int == (x * x) * x) by (nonlinear_arith)
                requires
                    x == pow2(64),
                    pow2(128) == pow2(64) * pow2(64),
                    pow2(192) == pow2(64) * pow2(128),
            ;
            assert(self.val() - other.val() == w.val() - pow2(192) * (1 - k2));
            lemma_val_bound(w);
            lemma_mod_multiples_vanish(-(1 - k2) as int, w.val() as int, pow2(192) as int);
            lemma_small_mod(w.val(), pow2(192));
            lemma_mod_pow2_still_mod(self.val() as int - other.val() as int, e as nat);
        }
        w.reduce(e)
    }

    /// Additive inverse modulo 2^e.
    pub fn neg_mod(self, e: usize) -> (r: Self)
        requires
            e <= 192,
        ensures
            r.val() == (-(self.val() as int)) % (pow2(e as nat) as int),
    {
        RingElement::zero().sub_mod(self, e)
    }

    /// Product modulo 2^e.
    pub fn mul_mod(self, other: Self, e: usize) -> (r: Self)
        requires
            e <= 192,
        ensures
            r.val() == (self.val() * other.val()) % pow2(e as nat),
    {
        proof {
            lemma2_to64();
            lemma_pow2_adds(64, 64);
            lemma_pow2_adds(64, 128);
            assert forall|x: u64, y: u64| #[trigger] ((x as u128) * (y as u128))
                <= 0xffff_ffff_ffff_ffff_ffff_ffff_ffff_fffeu128 by {
                vstd::arithmetic::mul::lemma_mul_upper_bound(
                    x as int,
                    0xffff_ffff_ffff_ffffu64 as int,
                    y as int,
                    0xffff_ffff_ffff_ffffu64 as int,
                );
            }
        }
        let p00: u128 = self.lo as u128 * other.lo as u128;
        let p01: u128 = self.lo as u128 * other.mid as u128;
        let p10: u128 = self.mid as u128 * other.lo as u128;
        let p02: u128 = self.lo as u128 * other.hi as u128;
        let p11: u128 = self.mid as u128 * other.mid as u128;
        let p20: u128 = self.hi as u128 * other.lo as u128;
        proof {
            lemma_split_u128(p00);
            lemma_split_u128(p01);
            lemma_split_u128(p10);
            lemma_split_u128(p02);
            lemma_split_u128(p11);
            lemma_split_u128(p20);
        }
        let r0: u64 = p00 as u64;
        let c0: u128 = p00 >> 64;
        let s1: u128 = c0 + (p01 as u64) as u128 + (p10 as u64) as u128;
        let r1: u64 = s1 as u64;
        let c1: u128 = s1 >> 64;
        proof {
            lemma_split_u128(s1);
        }
        let s2: u128 = c1 + (p01 >> 64) + (p10 >> 64) + (p02 as u64) as u128 + (p11 as u64) as u128
            + (p20 as u64) as u128;
        let r2: u64 = s2 as u64;
        let w = RingElement { lo: r0, mid: r1, hi: r2 };
        proof {
            let av = self.val() as int;
            let bv = other.val() as int;
            let x = pow2(64) as int;
            let p12 = self.mid * other.hi;
            let p21 = self.hi * other.mid;
            let p22 = self.hi * other.hi;
            lemma_split_u128(s1);
            lemma_split_u128(s2);
            lemma_pow2_adds(128, 64);
            let h00 = ((p00 >> 64) as u64) as int;
            let l01 = ((p01 as u64) as int);
            let h01 = ((p01 >> 64) as u64) as int;
            let l10 = ((p10 as u64) as int);
            let h10 = ((p10 >> 64) as u64) as int;
            let l02 = ((p02 as u64) as int);
            let h02 = ((p02 >> 64) as u64) as int;
            let l11 = ((p11 as u64) as int);
            let h11 = ((p11 >> 64) as u64) as int;
            let l20 = ((p20 as u64) as int);
            let h20 = ((p20 >> 64) as u64) as int;
            let k1 = ((s1 >> 64) as u64) as int;
            let k2 = ((s2 >> 64) as u64) as int;
            // the classic product expansion over the limbs
            lemma_mul_expand(
                self.lo as int,
                self.mid as int,
                self.hi as int,
                other.lo as int,
                other.mid as int,
                other.hi as int,
                x,
            );
            assert(av == self.lo + self.mid * x + self.hi * (x * x));
            assert(bv == other.lo + other.mid * x + other.hi * (x * x));
            assert(av * bv == p00 + (p01 + p10) * x + (p02 + p11 + p20) * (x * x) + (p12 + p21) * (x
                * x * x) + p22 * (x * x * x * x));
            // carry propagation: the three result columns hold the low bits
            lemma_mul_carry(
                x,
                p00 as int,
                l01,
                h01,
                l10,
                h10,
                l02,
                h02,
                l11,
                h11,
                l20,
                h20,
                r0 as int,
                h00,
                s1 as int,
                k1,
                r1 as int,
                s2 as int,
                k2,
                r2 as int,
            );
            let k = k2 + h02 + h11 + h20;
            lemma_factor_high(x, k, p12, p21, p22);
            let extra = k + p12 + p21 + p22 * x;
            assert(pow2(192) as int == x * x * x) by (nonlinear_arith)
                requires
                    x == pow2(64),
                    pow2(128) == pow2(64) * pow2(64),
                    pow2(192) == pow2(128) * pow2(64),
            ;
            assert(w.val() == r0 + r1 * x + r2 * (x * x));
            assert(av * bv == w.val() + pow2(192) * extra);
            lemma_val_bound(w);
            lemma_mod_multiples_vanish(extra, w.val() as int, pow2(192) as int);
            lemma_small_mod(w.val(), pow2(192));
            lemma_mod_pow2_still_mod((self.val() * other.val()) as int, e as nat);
        }
        w.reduce(e)
    }
}

impl RingElement {
    /// Quotient and remainder of division by a small (one-limb) divisor.
    pub fn div_rem_u64(self, m: u64) -> (qr: (Self, u64))
        requires
            1 <= m,
        ensures
            qr.0.val() * m + qr.1 == self.val(),
            qr.1 < m,
    {
        let md: u128 = m as u128;
        let cur2: u128 = self.hi as u128;
        proof {
            lemma2_to64();
            vstd::arithmetic::div_mod::lemma_div_nonincreasing(cur2 as int, md as int);
            vstd::arithmetic::div_mod::lemma_div_pos_is_pos(cur2 as int, md as int);
            lemma_fundamental_div_mod(cur2 as int, md as int);
            lemma_mod_bound(cur2 as int, md as int);
        }
        let q2: u64 = (cur2 / md) as u64;
        let r2: u64 = (cur2 % md) as u64;
        let cur1: u128 = r2 as u128 * 0x1_0000_0000_0000_0000u128 + self.mid as u128;
        proof {
            lemma_div_small_quotient(r2 as int, self.mid as int, md as int);
            lemma_fundamental_div_mod(cur1 as int, md as int);
            lemma_mod_bound(cur1 as int, md as int);
        }
        let q1: u64 = (cur1 / md) as u64;
        let r1: u64 = (cur1 % md) as u64;
        let cur0: u128 = r1 as u128 * 0x1_0000_0000_0000_0000u128 + self.lo as u128;
        proof {
            lemma_div_small_quotient(r1 as int, self.lo as int, md as int);
            lemma_fundamental_div_mod(cur0 as int, md as int);
            lemma_mod_bound(cur0 as int, md as int);
        }
        let q0: u64 = (cur0 / md) as u64;
        let rem: u64 = (cur0 % md) as u64;
        let q = RingElement { lo: q0, mid: q1, hi: q2 };
        proof {
            lemma_pow2_adds(64, 64);
            assert(q.val() * m + rem == self.val()) by (nonlinear_arith)
                requires
                    self.hi == md * q2 + r2,
                    r2 < md,
                    cur1 == r2 * pow2(64) + self.mid,
                    cur1 == md * q1 + r1,
                    r1 < md,
                    cur0 == r1 * pow2(64) + self.lo,
                    cur0 == md * q0 + rem,
                    rem < md,
                    md == m,
                    self.val() == self.lo + self.mid * pow2(64) + self.hi * pow2(128),
                    q.val() == q0 + q1 * pow2(64) + q2 * pow2(128),
                    pow2(128) == pow2(64) * pow2(64),
            ;
        }
        (q, rem)
    }

    /// Shift right by t bits: division by 2^t.
    pub fn shr(self, t: usize) -> (r: Self)
        ensures
            r.val() == self.val() / pow2(t as nat),
    {
        let steps: usize = if t > 192 {
            192
        } else {
            t
        };
        let mut x = self;
        let mut i: usize = 0;
        proof {
            lemma2_to64();
            vstd::arithmetic::div_mod::lemma_div_basics(self.val() as int);
        }
        while i < steps
            invariant
                i <= steps,
                steps <= 192,
                x.val() == self.val() / pow2(i as nat),
            decreases steps - i,
        {
            let (q, _r) = x.div_rem_u64(2);
            proof {
                lemma2_to64();
                lemma_fundamental_div_mod_converse(x.val() as int, 2, q.val() as int, _r as int);
                lemma_pow2_pos(i as nat);
                vstd::arithmetic::div_mod::lemma_div_denominator(
                    self.val() as int,
                    pow2(i as nat) as int,
                    2,
                );
                lemma_pow2_adds(i as nat, 1);
            }
            x = q;
            i = i + 1;
        }
        proof {
            if t > 192 {
                lemma_val_bound(self);
                lemma_pow2_strictly_increases(192, t as nat);
                vstd::arithmetic::div_mod::lemma_basic_div(self.val() as int, pow2(t as nat) as int);
                lemma_pow2_pos(192);
                vstd::arithmetic::div_mod::lemma_basic_div(
                    self.val() as int,
                    pow2(192) as int,
                );
            }
        }
        x
    }

    /// Strict comparison of the represented values.
    pub fn lt(self, other: Self) -> (r: bool)
        ensures
            r == (self.val() < other.val()),
    {
        proof {
            lemma2_to64();
            lemma_pow2_adds(64, 64);
            lemma_val_cmp(self, other);
        }
        if self.hi != other.hi {
            self.hi < other.hi
        } else if self.mid != other.mid {
            self.mid < other.mid
        } else {
            self.lo < other.lo
        }
    }

    /// Whether this element is zero.
    pub fn is_zero(self) -> (r: bool)
        ensures
            r == (self.val() == 0),
    {
        proof {
            lemma2_to64();
            lemma_pow2_adds(64, 64);
            if self.mid != 0 || self.hi != 0 {
                assert(self.mid * pow2(64) + self.hi * pow2(128) >= pow2(64)) by (nonlinear_arith)
                    requires
                        self.mid >= 1 || self.hi >= 1,
                        pow2(64) > 0,
                        pow2(128) > pow2(64),
                ;
            }
        }
        self.lo == 0 && self.mid == 0 && self.hi == 0
    }

    /// The value as a plain u64; the element must be small enough.
    pub fn as_u64(self) -> (r: u64)
        requires
            self.val() < pow2(64),
        ensures
            r == self.val(),
    {
        proof {
            lemma2_to64();
            lemma_pow2_adds(64, 64);
            if self.mid != 0 || self.hi != 0 {
                assert(self.mid * pow2(64) + self.hi * pow2(128) >= pow2(64)) by (nonlinear_arith)
                    requires
                        self.mid >= 1 || self.hi >= 1,
                        pow2(64) > 0,
                        pow2(128) > pow2(64),
                ;
            }
        }
        self.lo
    }

    /// The element whose value is 2^e.
    pub fn pow2_elem(e: usize) -> (r: Self)
        requires
            e < 192,
        ensures
            r.val() == pow2(e as nat),
    {
        proof {
            lemma2_to64();
            lemma_pow2_adds(64, 64);
        }
        if e >= 128 {
            let b = (e - 128) as u64;
            proof {
                vstd::bits::lemma_u64_pow2_no_overflow((e - 128) as nat);
                lemma_u64_shl_is_mul(1u64, b);
                lemma_pow2_adds((e - 128) as nat, 128);
            }
            RingElement { lo: 0, mid: 0, hi: 1u64 << b }
        } else if e >= 64 {
            let b = (e - 64) as u64;
            proof {
                vstd::bits::lemma_u64_pow2_no_overflow((e - 64) as nat);
                lemma_u64_shl_is_mul(1u64, b);
                lemma_pow2_adds((e - 64) as nat, 64);
            }
            RingElement { lo: 0, mid: 1u64 << b, hi: 0 }
        } else {
            let b = e as u64;
            proof {
                vstd::bits::lemma_u64_pow2_no_overflow(e as nat);
                lemma_u64_shl_is_mul(1u64, b);
            }
            RingElement { lo: 1u64 << b, mid: 0, hi: 0 }
        }
    }
}

/// A remainder times 2^64 plus one limb, divided by the modulus, fits one limb.
proof fn lemma_div_small_quotient(r: int, low: int, md: int)
    requires
        0 <= r < md,
        0 <= low < pow2(64),
    ensures
        0 <= r * pow2(64) + low,
        (r * pow2(64) + low) / md < pow2(64),
{
    lemma_pow2_pos(64);
    assert(r * pow2(64) + low < md * pow2(64)) by (nonlinear_arith)
        requires
            r < md,
            low < pow2(64),
            pow2(64) > 0,
    ;
    assert(r * pow2(64) >= 0) by (nonlinear_arith)
        requires
            r >= 0,
            pow2(64) > 0,
    ;
    vstd::arithmetic::div_mod::lemma_multiply_divide_lt(r * pow2(64) + low, md, pow2(64) as int);
}

/// Ordering two elements orders their limbs lexicographically, high limb first.
proof fn lemma_val_cmp(a: RingElement, b: RingElement)
    ensures
        a.hi < b.hi ==> a.val() < b.val(),
        a.hi == b.hi && a.mid < b.mid ==> a.val() < b.val(),
        a.hi == b.hi && a.mid == b.mid ==> (a.val() < b.val() <==> a.lo < b.lo),
{
    lemma2_to64();
    lemma_pow2_adds(64, 64);
    if a.hi < b.hi {
        assert(a.val() < b.val()) by (nonlinear_arith)
            requires
                a.hi < b.hi,
                a.val() == a.lo + a.mid * pow2(64) + a.hi * pow2(128),
                b.val() == b.lo + b.mid * pow2(64) + b.hi * pow2(128),
                a.lo < pow2(64),
                b.lo < pow2(64),
                a.mid < pow2(64),
                b.mid < pow2(64),
                pow2(128) == pow2(64) * pow2(64),
        ;
    }
    if a.hi == b.hi && a.mid < b.mid {
        assert(a.val() < b.val()) by (nonlinear_arith)
            requires
                a.hi == b.hi,
                a.mid < b.mid,
                a.val() == a.lo + a.mid * pow2(64) + a.hi * pow2(128),
                b.val() == b.lo + b.mid * pow2(64) + b.hi * pow2(128),
                a.lo < pow2(64),
                b.lo < pow2(64),
        ;
    }
}

/// Congruent summands give congruent sums.
pub proof fn lemma_mod_add_combine(x: int, y: int, a: int, b: int, q: int)
    requires
        q > 0,
        x % q == a % q,
        y % q == b % q,
    ensures
        (x + y) % q == (a + b) % q,
{
    vstd::arithmetic::div_mod::lemma_add_mod_noop(x, y, q);
    vstd::arithmetic::div_mod::lemma_add_mod_noop(a, b, q);
}

/// Congruent operands give congruent differences.
pub proof fn lemma_mod_sub_combine(x: int, y: int, a: int, b: int, q: int)
    requires
        q > 0,
        x % q == a % q,
        y % q == b % q,
    ensures
        (x - y) % q == (a - b) % q,
{
    vstd::arithmetic::div_mod::lemma_sub_mod_noop(x, y, q);
    vstd::arithmetic::div_mod::lemma_sub_mod_noop(a, b, q);
}

/// Congruent factors give congruent products.
pub proof fn lemma_mod_mul_combine(x: int, y: int, a: int, b: int, q: int)
    requires
        q > 0,
        x % q == a % q,
        y % q == b % q,
    ensures
        (x * y) % q == (a * b) % q,
{
    vstd::arithmetic::div_mod::lemma_mul_mod_noop_general(x, y, q);
    vstd::arithmetic::div_mod::lemma_mul_mod_noop_general(a, b, q);
    assert((x % q) * (y % q) == (a % q) * (b % q));
}

/// Negating then reducing agrees with reducing then negating.
pub proof fn lemma_mod_neg(m: int, q: int)
    requires
        q > 0,
    ensures
        (-(m % q)) % q == (-m) % q,
{
    vstd::arithmetic::div_mod::lemma_sub_mod_noop(0, m, q);
    vstd::arithmetic::div_mod::lemma_mod_self_0(q);
    assert((0int) % q == 0) by {
        vstd::arithmetic::div_mod::lemma_small_mod(0nat, q as nat);
    }
    assert(((0int % q) - (m % q)) % q == (0 - m) % q);
}

/// A signed quantity: a sign and a magnitude.  Secrets handed to the
/// sharing scheme may be negative; shares themselves never are.
#[derive(Clone, Copy, Debug, PartialEq, Eq, Structural)]
pub struct SignedElement {
    pub negative: bool,
    pub magnitude: RingElement,
}

impl SignedElement {
    /// The integer this value stands for.
    pub open spec fn ival(self) -> int {
        if self.negative {
            -(self.magnitude.val() as int)
        } else {
            self.magnitude.val() as int
        }
    }

    pub fn from_u64(x: u64) -> (r: Self)
        ensures
            r.ival() == x,
    {
        SignedElement { negative: false, magnitude: RingElement::from_u64(x) }
    }

    pub fn from_i64(x: i64) -> (r: Self)
        ensures
            r.ival() == x,
    {
        if x >= 0 {
            SignedElement { negative: false, magnitude: RingElement::from_u64(x as u64) }
        } else {
            let m: u64 = (-(x as i128)) as u64;
            SignedElement { negative: true, magnitude: RingElement::from_u64(m) }
        }
    }

    pub fn from_element(x: RingElement) -> (r: Self)
        ensures
            r.ival() == x.val(),
    {
        SignedElement { negative: false, magnitude: x }
    }

    /// The canonical residue in [0, 2^e).
    pub fn mod_pow2(self, e: usize) -> (r: RingElement)
        requires
            e <= 192,
        ensures
            r.val() as int == self.ival() % (pow2(e as nat) as int),
    {
        proof {
            lemma_pow2_pos(e as nat);
        }
        if self.negative {
            let red = self.magnitude.reduce(e);
            proof {
                lemma_mod_neg(self.magnitude.val() as int, pow2(e as nat) as int);
            }
            red.neg_mod(e)
        } else {
            self.magnitude.reduce(e)
        }
    }
}

/// Relies on rand::random: some 64-bit value; nothing is assumed about it.
#[verifier::external_body]
fn sample_limb() -> u64 {
    rand::random::<u64>()
}

/// A fresh value drawn uniformly from [0, 2^e).
pub fn random_below_pow2(e: usize) -> (r: RingElement)
    requires
        e <= 192,
    ensures
        r.val() < pow2(e as nat),
{
    let x = RingElement { lo: sample_limb(), mid: sample_limb(), hi: sample_limb() };
    let r = x.reduce(e);
    proof {
        lemma_pow2_pos(e as nat);
        lemma_mod_bound(x.val() as int, pow2(e as nat) as int);
    }
    r
}

/// The borrow chain of a three-limb subtraction.
proof fn lemma_sub_chain(
    x: int,
    alo: int,
    amid: int,
    ahi: int,
    blo: int,
    bmid: int,
    bhi: int,
    d0: int,
    r0: int,
    k0: int,
    d1: int,
    r1: int,
    k1: int,
    d2: int,
    r2: int,
    k2: int,
)
    by (nonlinear_arith)
    requires
        d0 == x + alo - blo,
        d1 == x + amid - bmid - (1 - k0),
        d2 == x + ahi - bhi - (1 - k1),
        d0 == r0 + x * k0,
        d1 == r1 + x * k1,
        d2 == r2 + x * k2,
    ensures
        (alo + amid * x + ahi * (x * x)) - (blo + bmid * x + bhi * (x * x)) == (r0 + r1 * x + r2 * (x
            * x)) - ((x * x) * x) * (1 - k2),
{
}

/// Schoolbook expansion of a product of two three-limb numbers.
proof fn lemma_mul_expand(a0: int, a1: int, a2: int, b0: int, b1: int, b2: int, x: int)
    ensures
        (a0 + a1 * x + a2 * (x * x)) * (b0 + b1 * x + b2 * (x * x)) == a0 * b0 + (a0 * b1 + a1 * b0)
            * x + (a0 * b2 + a1 * b1 + a2 * b0) * (x * x) + (a1 * b2 + a2 * b1) * (x * x * x) + (a2
            * b2) * (x * x * x * x),
{
    let bb = b0 + b1 * x + b2 * (x * x);
    assert((a0 + a1 * x + a2 * (x * x)) * bb == a0 * bb + a1 * (x * bb) + a2 * ((x * x) * bb))
        by (nonlinear_arith);
    assert(a0 * bb == a0 * b0 + (a0 * b1) * x + (a0 * b2) * (x * x)) by (nonlinear_arith)
        requires
            bb == b0 + b1 * x + b2 * (x * x),
    ;
    assert(x * bb == b0 * x + b1 * (x * x) + b2 * (x * x * x)) by (nonlinear_arith)
        requires
            bb == b0 + b1 * x + b2 * (x * x),
    ;
    assert(a1 * (x * bb) == (a1 * b0) * x + (a1 * b1) * (x * x) + (a1 * b2) * (x * x * x))
        by (nonlinear_arith)
        requires
            x * bb == b0 * x + b1 * (x * x) + b2 * (x * x * x),
    ;
    assert((x * x) * bb == b0 * (x * x) + b1 * (x * x * x) + b2 * (x * x * x * x))
        by (nonlinear_arith)
        requires
            bb == b0 + b1 * x + b2 * (x * x),
    ;
    assert(a2 * ((x * x) * bb) == (a2 * b0) * (x * x) + (a2 * b1) * (x * x * x) + (a2 * b2) * (x * x
        * x * x)) by (nonlinear_arith)
        requires
            (x * x) * bb == b0 * (x * x) + b1 * (x * x * x) + b2 * (x * x * x * x),
    ;
    assert((a0 * b1 + a1 * b0) * x == (a0 * b1) * x + (a1 * b0) * x) by (nonlinear_arith);
    assert((a0 * b2 + a1 * b1 + a2 * b0) * (x * x) == (a0 * b2) * (x * x) + (a1 * b1) * (x * x) + (a2
        * b0) * (x * x)) by (nonlinear_arith);
    assert((a1 * b2 + a2 * b1) * (x * x * x) == (a1 * b2) * (x * x * x) + (a2 * b1) * (x * x * x))
        by (nonlinear_arith);
}

/// Propagating the carries through the three result columns.
proof fn lemma_mul_carry(
    x: int,
    p00: int,
    l01: int,
    h01: int,
    l10: int,
    h10: int,
    l02: int,
    h02: int,
    l11: int,
    h11: int,
    l20: int,
    h20: int,
    r0: int,
    h00: int,
    s1: int,
    k1: int,
    r1: int,
    s2: int,
    k2: int,
    r2: int,
)
    requires
        p00 == r0 + x * h00,
        s1 == h00 + l01 + l10,
        s1 == r1 + x * k1,
        s2 == k1 + h01 + h10 + l02 + l11 + l20,
        s2 == r2 + x * k2,
    ensures
        p00 + ((l01 + x * h01) + (l10 + x * h10)) * x + ((l02 + x * h02) + (l11 + x * h11) + (l20 + x
            * h20)) * (x * x) == r0 + r1 * x + r2 * (x * x) + (x * x * x) * (k2 + h02 + h11 + h20),
{
    assert(((l01 + x * h01) + (l10 + x * h10)) * x == l01 * x + l10 * x + h01 * (x * x) + h10 * (x
        * x)) by (nonlinear_arith);
    assert(((l02 + x * h02) + (l11 + x * h11) + (l20 + x * h20)) * (x * x) == l02 * (x * x) + l11 * (
    x * x) + l20 * (x * x) + h02 * (x * x * x) + h11 * (x * x * x) + h20 * (x * x * x))
        by (nonlinear_arith);
    assert(x * h00 + l01 * x + l10 * x == r1 * x + k1 * (x * x)) by (nonlinear_arith)
        requires
            h00 + l01 + l10 == r1 + x * k1,
    ;
    assert(h01 * (x * x) + h10 * (x * x) + l02 * (x * x) + l11 * (x * x) + l20 * (x * x) + k1 * (x
        * x) == r2 * (x * x) + k2 * (x * x * x)) by (nonlinear_arith)
        requires
            k1 + h01 + h10 + l02 + l11 + l20 == r2 + x * k2,
    ;
    assert((x * x * x) * (k2 + h02 + h11 + h20) == k2 * (x * x * x) + h02 * (x * x * x) + h11 * (x
        * x * x) + h20 * (x * x * x)) by (nonlinear_arith);
}

/// Collecting every term of weight 2^192 and above into one factor.
proof fn lemma_factor_high(x: int, a: int, b: int, c: int, d: int)
    by (nonlinear_arith)
    ensures
        (a + b + c + d * x) * (x * x * x) == (x * x * x) * a + (b + c) * (x * x * x) + d * (x * x * x
            * x),
        (x * x * x) * (a + b + c + d * x) == (x * x * x) * a + (b + c) * (x * x * x) + d * (x * x * x
            * x),
{
}

} // verus!
