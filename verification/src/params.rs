//! Public parameters of the protocol: every size is derived from the
//! ciphertext, plaintext, digit and MAC security bit lengths.

use vstd::prelude::*;

verus! {

use vstd::arithmetic::power2::pow2;

/// The derived public parameters.  All ring sizes are powers of two and
/// are carried as exponents; `big_b` and `big_d` are the two table sizes
/// the protocol also needs as plain numbers.
#[derive(Debug, Clone, Copy, PartialEq, Eq, Structural)]
pub struct PublicParameters {
    /// Number of parties.
    pub n: usize,
    /// Ciphertext bit length.
    pub k: usize,
    /// Plaintext bit length.
    pub m: usize,
    /// Noise budget l = k - m.
    pub l: usize,
    /// "Digit" bit length.
    pub b: usize,
    /// B = 2^b.
    pub big_b: usize,
    /// Number of digits d = ceil(l/b).
    pub d: usize,
    /// D = 2^(d+1).
    pub big_d: usize,
    /// Top digit length b' = l - (d-1)*b.
    pub b_prime: usize,
    /// LWE dimension.
    pub lwe_dimension: usize,
    /// MAC security parameter bits.
    pub mac_s: usize,
    /// MAC smaller ring bits (the ciphertext ring).
    pub mac_k: usize,
    /// MAC larger ring bits = k + s.
    pub mac_ks: usize,
}

impl PublicParameters {
    /// Everything the rest of the library relies on: the derived fields
    /// follow from (n, k, m, b, mac_s) and every ring fits the element width.
    pub open spec fn wf(self) -> bool {
        &&& self.n >= 1
        &&& 1 <= self.m < self.k
        &&& self.l == self.k - self.m
        &&& 1 <= self.b < 32
        &&& self.big_b == pow2(self.b as nat)
        &&& self.d == (self.l + self.b - 1) / (self.b as int)
        &&& 1 <= self.d
        &&& self.d + 1 < 32
        &&& self.big_d == pow2((self.d + 1) as nat)
        &&& self.d * self.b >= self.l
        &&& (self.d - 1) * self.b < self.l
        &&& self.b_prime == self.l - (self.d - 1) * self.b
        &&& self.k < 192
        &&& self.mac_k == self.k
        &&& self.mac_ks == self.k + self.mac_s
        &&& self.mac_ks <= 192
    }

    /// Derive every size from the five chosen parameters.
    pub fn init(n: usize, k: usize, m: usize, b: usize, lwe_dimension: usize, mac_s: usize) -> (p:
        PublicParameters)
        requires
            n >= 1,
            1 <= m < k,
            k < 192,
            1 <= b < 32,
            (k - m + b - 1) / (b as int) + 1 < 32,
            k + mac_s <= 192,
        ensures
            p.wf(),
            p.n == n,
            p.k == k,
            p.m == m,
            p.b == b,
            p.lwe_dimension == lwe_dimension,
            p.mac_s == mac_s,
    {
        let l = k - m;
        let d = (l + b - 1) / b;
        proof {
            vstd::arithmetic::power2::lemma2_to64();
            // d = ceil(l/b): d*b covers l and (d-1)*b does not
            vstd::arithmetic::div_mod::lemma_fundamental_div_mod((l + b - 1) as int, b as int);
            vstd::arithmetic::div_mod::lemma_mod_bound((l + b - 1) as int, b as int);
            assert(d * b >= l && (d - 1) * b < l) by (nonlinear_arith)
                requires
                    1 <= b,
                    1 <= l,
                    (l + b - 1) == b * d + ((l + b - 1) as int % (b as int)),
                    0 <= (l + b - 1) as int % (b as int) < b,
            ;
            assert(d >= 1) by (nonlinear_arith)
                requires
                    1 <= b,
                    1 <= l,
                    d * b >= l,
            ;
        }
        proof {
            vstd::bits::lemma_u64_pow2_no_overflow(b as nat);
            vstd::bits::lemma_u64_shl_is_mul(1u64, b as u64);
            vstd::bits::lemma_u64_pow2_no_overflow((d + 1) as nat);
            vstd::bits::lemma_u64_shl_is_mul(1u64, (d + 1) as u64);
            if b < 31 {
                vstd::arithmetic::power2::lemma_pow2_strictly_increases(b as nat, 31);
            }
            if d + 1 < 31 {
                vstd::arithmetic::power2::lemma_pow2_strictly_increases((d + 1) as nat, 31);
            }
        }
        let big_b = (1u64 << (b as u64)) as usize;
        let big_d = (1u64 << ((d + 1) as u64)) as usize;
        let b_prime = l - (d - 1) * b;
        PublicParameters {
            n,
            k,
            m,
            l,
            b,
            big_b,
            d,
            big_d,
            b_prime,
            lwe_dimension,
            mac_s,
            mac_k: k,
            mac_ks: k + mac_s,
        }
    }

    /// Decide well-formedness at run time (the network path cannot trust
    /// a received parameter set).
    pub fn check(&self) -> (r: bool)
        ensures
            r == self.wf(),
    {
        proof {
            vstd::arithmetic::power2::lemma2_to64();
        }
        if !(self.n >= 1 && 1 <= self.m && self.m < self.k && self.k < 192 && 1 <= self.b
            && self.b < 32 && self.l == self.k - self.m && self.d >= 1 && self.d < 31) {
            return false;
        }
        assert(self.d <= 30 && self.b <= 31 && self.l <= 191);
        assert(self.d * self.b <= 930 && (self.d - 1) * self.b <= 930) by (nonlinear_arith)
            requires
                1 <= self.d <= 30,
                1 <= self.b <= 31,
        ;
        proof {
            vstd::bits::lemma_u64_pow2_no_overflow(self.b as nat);
            vstd::bits::lemma_u64_shl_is_mul(1u64, self.b as u64);
            vstd::bits::lemma_u64_pow2_no_overflow((self.d + 1) as nat);
            vstd::bits::lemma_u64_shl_is_mul(1u64, (self.d + 1) as u64);
        }
        let big_b_ok = self.big_b as u64 == 1u64 << (self.b as u64);
        let big_d_ok = self.big_d as u64 == 1u64 << ((self.d + 1) as u64);
        big_b_ok && big_d_ok && self.d == (self.l + self.b - 1) / self.b && self.d * self.b
            >= self.l && (self.d - 1) * self.b < self.l && (self.d - 1) * self.b <= self.l
            && self.b_prime == self.l - (self.d - 1) * self.b && self.mac_k == self.k
            && self.mac_s <= 192 && self.mac_ks == self.k + self.mac_s && self.mac_ks <= 192
    }

    /// A parameter set that works well in practice.
    pub fn default() -> (p: PublicParameters)
        ensures
            p.wf(),
            p.n == 4,
            p.k == 64,
            p.m == 4,
            p.b == 7,
            p.lwe_dimension == 1024,
            p.mac_s == 80,
    {
        let (n, k, m, b, lwe_dimension, mac_s) = (4, 64, 4, 7, 1024, 80);
        PublicParameters::init(n, k, m, b, lwe_dimension, mac_s)
    }
}

} // verus!
