//! The LWE encryption scheme for a single scalar message.
//!
//! A ciphertext is a pair (a, b) with b = -<a, sk> + e + (q/p)*m mod q;
//! decryption recovers m whenever the noise e stays below q/(2p).

use vstd::prelude::*;

verus! {

use vstd::arithmetic::power2::{pow2, lemma_pow2_pos, lemma_pow2_adds};
use vstd::arithmetic::div_mod::{
    lemma_small_mod, lemma_mod_bound, lemma_mod_twice, lemma_fundamental_div_mod_converse,
};
use crate::ring::{
    RingElement, random_below_pow2, lemma_mod_add_combine, lemma_mod_sub_combine,
};

/// The inner product of two equally long vectors of ring elements.
pub open spec fn dot_vals(a: Seq<RingElement>, b: Seq<RingElement>) -> int
    decreases a.len(),
{
    if a.len() == 0 || b.len() == 0 {
        0
    } else {
        dot_vals(a.drop_last(), b.drop_last()) + a.last().val() * b.last().val()
    }
}

pub proof fn lemma_dot_take_step(a: Seq<RingElement>, b: Seq<RingElement>, i: int)
    requires
        0 <= i < a.len(),
        0 <= i < b.len(),
    ensures
        dot_vals(a.take(i + 1), b.take(i + 1)) == dot_vals(a.take(i), b.take(i)) + a[i].val()
            * b[i].val(),
{
    assert(a.take(i + 1).drop_last() =~= a.take(i));
    assert(b.take(i + 1).drop_last() =~= b.take(i));
    assert(a.take(i + 1).last() == a[i]);
    assert(b.take(i + 1).last() == b[i]);
}

pub proof fn lemma_dot_take_all(a: Seq<RingElement>, b: Seq<RingElement>)
    requires
        a.len() == b.len(),
    ensures
        dot_vals(a.take(a.len() as int), b.take(b.len() as int)) == dot_vals(a, b),
{
    assert(a.take(a.len() as int) =~= a);
    assert(b.take(b.len() as int) =~= b);
}

/// The inner product of two vectors, reduced mod 2^e.
pub fn dot_mod(a: &Vec<RingElement>, b: &Vec<RingElement>, e: usize) -> (r: RingElement)
    requires
        a@.len() == b@.len(),
        e <= 192,
    ensures
        r.val() as int == dot_vals(a@, b@) % (pow2(e as nat) as int),
        r.val() < pow2(e as nat),
{
    let ghost q = pow2(e as nat) as int;
    proof {
        lemma_pow2_pos(e as nat);
        lemma_small_mod(0, pow2(e as nat));
    }
    let mut acc = RingElement::zero();
    let mut i: usize = 0;
    while i < a.len()
        invariant
            i <= a@.len(),
            a@.len() == b@.len(),
            e <= 192,
            q == pow2(e as nat) as int,
            q > 0,
            acc.val() as int == dot_vals(a@.take(i as int), b@.take(i as int)) % q,
        decreases a@.len() - i,
    {
        let term = a[i].mul_mod(b[i], e);
        let new_acc = acc.add_mod(term, e);
        proof {
            lemma_dot_take_step(a@, b@, i as int);
            lemma_mod_twice(dot_vals(a@.take(i as int), b@.take(i as int)), q);
            lemma_mod_twice((a@[i as int].val() * b@[i as int].val()) as int, q);
            lemma_mod_add_combine(
                acc.val() as int,
                term.val() as int,
                dot_vals(a@.take(i as int), b@.take(i as int)),
                (a@[i as int].val() * b@[i as int].val()) as int,
                q,
            );
        }
        acc = new_acc;
        i = i + 1;
    }
    proof {
        lemma_dot_take_all(a@, b@);
        lemma_mod_bound(dot_vals(a@, b@), q);
    }
    acc
}

/// Strict bound on the noise an encryption may add: q/(2p), i.e. 2^(l-1).
pub open spec fn half_noise_bound(l: nat) -> int {
    if l == 0 {
        1
    } else {
        pow2((l - 1) as nat) as int
    }
}

/// The rounding offset q/(2p) that decryption adds before shifting.
pub open spec fn rounding_offset(l: nat) -> int {
    if l == 0 {
        0
    } else {
        pow2((l - 1) as nat) as int
    }
}

/// The LWE scheme: ring sizes and the secret key.
#[derive(Debug, Clone)]
pub struct LweScheme {
    /// Plaintext bit length: p = 2^p_exponent.
    pub p_exponent: usize,
    /// Ciphertext bit length: q = 2^q_exponent.
    pub q_exponent: usize,
    /// The secret key: `dimension` uniform elements of [0, q).
    pub sk: Vec<RingElement>,
    /// Length of the key and of every ciphertext vector.
    pub dimension: usize,
}

impl LweScheme {
    pub open spec fn wf(self) -> bool {
        &&& self.p_exponent <= self.q_exponent
        &&& self.q_exponent < 192
        &&& self.sk@.len() == self.dimension
        &&& forall|i: int| 0 <= i < self.sk@.len() ==> (#[trigger] self.sk@[i]).val() < pow2(
            self.q_exponent as nat,
        )
    }

    /// Noise budget bits l = q_exponent - p_exponent.
    pub open spec fn l(self) -> nat {
        (self.q_exponent - self.p_exponent) as nat
    }

    /// The noise value e explains the ciphertext component b of message m.
    pub open spec fn noise_explains(self, a: Seq<RingElement>, b: RingElement, m: int, e: int)
        -> bool {
        &&& 0 <= e < half_noise_bound(self.l())
        &&& b.val() as int == (e + pow2(self.l()) * m - dot_vals(a, self.sk@)) % (pow2(
            self.q_exponent as nat,
        ) as int)
    }

    /// What a well-formed ciphertext of message m looks like: some noise
    /// below the bound explains b.
    pub open spec fn is_ciphertext_of(self, a: Seq<RingElement>, b: RingElement, m: int) -> bool {
        &&& a.len() == self.dimension
        &&& (forall|i: int| 0 <= i < a.len() ==> (#[trigger] a[i]).val() < pow2(
            self.q_exponent as nat,
        ))
        &&& b.val() < pow2(self.q_exponent as nat)
        &&& exists|e: int| #[trigger] self.noise_explains(a, b, m, e)
    }

    /// Sample a fresh key.  The last argument is the number of rows the
    /// public matrix would have; the public key itself is not kept, so it
    /// only documents the scheme.
    pub fn new(p_exponent: usize, q_exponent: usize, dimension: usize, _pk_rows: usize) -> (r:
        LweScheme)
        requires
            p_exponent <= q_exponent,
            q_exponent < 192,
        ensures
            r.wf(),
            r.p_exponent == p_exponent,
            r.q_exponent == q_exponent,
            r.dimension == dimension,
    {
        let mut sk: Vec<RingElement> = Vec::new();
        let mut i: usize = 0;
        while i < dimension
            invariant
                i <= dimension,
                q_exponent < 192,
                sk@.len() == i,
                forall|j: int| 0 <= j < sk@.len() ==> (#[trigger] sk@[j]).val() < pow2(
                    q_exponent as nat,
                ),
            decreases dimension - i,
        {
            sk.push(random_below_pow2(q_exponent));
            i = i + 1;
        }
        LweScheme { p_exponent, q_exponent, sk, dimension }
    }

    /// Encrypt a message m < p: draw a fresh vector a and noise e, and
    /// return (a, b) with b = -<a, sk> + e + (q/p)*m mod q.
    pub fn encrypt(&self, m: &RingElement) -> (ct: (Vec<RingElement>, RingElement))
        requires
            self.wf(),
            m.val() < pow2(self.p_exponent as nat),
        ensures
            self.is_ciphertext_of(ct.0@, ct.1, m.val() as int),
    {
        let qe = self.q_exponent;
        let le = qe - self.p_exponent;
        let ghost q = pow2(qe as nat) as int;
        proof {
            lemma_pow2_pos(qe as nat);
        }
        let noise = if le == 0 {
            RingElement::zero()
        } else {
            random_below_pow2(le - 1)
        };
        let mut a: Vec<RingElement> = Vec::new();
        let mut i: usize = 0;
        while i < self.dimension
            invariant
                i <= self.dimension,
                qe < 192,
                qe == self.q_exponent,
                a@.len() == i,
                forall|j: int| 0 <= j < a@.len() ==> (#[trigger] a@[j]).val() < pow2(qe as nat),
            decreases self.dimension - i,
        {
            a.push(random_below_pow2(qe));
            i = i + 1;
        }
        // (q/p) * m
        let m_scaled = RingElement::pow2_elem(le).mul_mod(*m, qe);
        // b = e + (q/p)m - <a, sk>  (mod q)
        let dot = dot_mod(&a, &self.sk, qe);
        let b_masked = noise.add_mod(m_scaled, qe);
        let b = b_masked.sub_mod(dot, qe);
        proof {
            let ghost ev = noise.val() as int;
            let ghost mv = m.val() as int;
            let ghost dv = dot_vals(a@, self.sk@);
            lemma_mod_twice((pow2(le as nat) * mv) as int, q);
            lemma_mod_add_combine(ev, m_scaled.val() as int, ev, pow2(le as nat) * mv, q);
            lemma_mod_twice(ev + pow2(le as nat) * mv, q);
            lemma_mod_twice(dv, q);
            lemma_mod_sub_combine(
                b_masked.val() as int,
                dot.val() as int,
                ev + pow2(le as nat) * mv,
                dv,
                q,
            );
            assert(0 <= ev < half_noise_bound(self.l()));
            assert(b.val() as int == (ev + pow2(self.l()) * mv - dv) % q);
            assert(self.noise_explains(a@, b, mv, ev));
        }
        (a, b)
    }

    /// Decrypt: u = <a, sk> + b mod q, add the rounding offset q/(2p),
    /// shift the noise bits away.
    pub fn decrypt(&self, a: &Vec<RingElement>, b: &RingElement) -> (msg: RingElement)
        requires
            self.wf(),
            a@.len() == self.dimension,
        ensures
            msg.val() as int == ((dot_vals(a@, self.sk@) + b.val()) % (pow2(
                self.q_exponent as nat,
            ) as int) + rounding_offset(self.l())) / (pow2(self.l()) as int),
    {
        let qe = self.q_exponent;
        let le = qe - self.p_exponent;
        let ghost q = pow2(qe as nat) as int;
        proof {
            lemma_pow2_pos(qe as nat);
            lemma_pow2_pos(le as nat);
        }
        let dot = dot_mod(a, &self.sk, qe);
        let u = dot.add_mod(*b, qe);
        let offset = if le == 0 {
            RingElement::zero()
        } else {
            RingElement::pow2_elem(le - 1)
        };
        let w = u.add_mod(offset, 192);
        proof {
            lemma_mod_twice(dot_vals(a@, self.sk@), q);
            lemma_mod_add_combine(
                dot.val() as int,
                b.val() as int,
                dot_vals(a@, self.sk@),
                b.val() as int,
                q,
            );
            // no wrap-around when adding the offset in the full width
            if le >= 1 {
                vstd::arithmetic::power2::lemma_pow2_strictly_increases((le - 1) as nat, 192);
            }
            vstd::arithmetic::power2::lemma_pow2_strictly_increases(qe as nat, 192);
            assert(u.val() + offset.val() < pow2(192)) by {
                vstd::arithmetic::power2::lemma_pow2_adds((qe + 1) as nat, (191 - qe) as nat);
                vstd::arithmetic::power2::lemma_pow2_adds(qe as nat, 1);
                vstd::arithmetic::power2::lemma2_to64();
                if le >= 1 {
                    if le - 1 < qe {
                        vstd::arithmetic::power2::lemma_pow2_strictly_increases(
                            (le - 1) as nat,
                            qe as nat,
                        );
                    }
                }
                vstd::arithmetic::power2::lemma_pow2_pos((191 - qe) as nat);
                assert(pow2((qe + 1) as nat) <= pow2(192)) by {
                    if qe + 1 < 192 {
                        vstd::arithmetic::power2::lemma_pow2_strictly_increases(
                            (qe + 1) as nat,
                            192,
                        );
                    }
                }
            }
            lemma_small_mod((u.val() + offset.val()) as nat, pow2(192));
        }
        w.shr(le)
    }
}

/// Decryption undoes encryption: if b carries message m with noise below
/// q/(2p), the decryption formula returns exactly m.
pub proof fn lemma_decrypt_roundtrip(qe: nat, pe: nat, dot: int, b: int, m: int, e: int)
    requires
        pe <= qe < 192,
        0 <= m < pow2(pe),
        0 <= e < half_noise_bound((qe - pe) as nat),
        b == (e + pow2((qe - pe) as nat) * m - dot) % (pow2(qe) as int),
    ensures
        ((dot + b) % (pow2(qe) as int) + rounding_offset((qe - pe) as nat)) / (pow2(
            (qe - pe) as nat,
        ) as int) == m,
{
    let l = (qe - pe) as nat;
    let q = pow2(qe) as int;
    let bigl = pow2(l) as int;
    lemma_pow2_pos(qe);
    lemma_pow2_pos(l);
    lemma_pow2_adds(l, pe);
    // dot + b = dot + (e + L*m - dot) = e + L*m  (mod q)
    lemma_mod_twice(e + bigl * m - dot, q);
    lemma_mod_add_combine(dot, b, dot, e + bigl * m - dot, q);
    // e + L*m < q, so the mod does nothing
    assert(bigl * m <= bigl * (pow2(pe) - 1)) by (nonlinear_arith)
        requires
            0 <= m <= pow2(pe) - 1,
            bigl > 0,
    ;
    assert(bigl * (pow2(pe) - 1) == q - bigl) by (nonlinear_arith)
        requires
            q == bigl * pow2(pe),
            bigl > 0,
    ;
    assert(0 <= e + bigl * m < q) by {
        assert(bigl * m >= 0) by (nonlinear_arith)
            requires
                m >= 0,
                bigl > 0,
        ;
        if l == 0 {
        } else {
            vstd::arithmetic::power2::lemma_pow2_subtracts((l - 1) as nat, l);
            vstd::arithmetic::power2::lemma_pow2_adds((l - 1) as nat, 1);
            vstd::arithmetic::power2::lemma2_to64();
        }
    }
    lemma_small_mod((e + bigl * m) as nat, q as nat);
    // (L*m + (e + offset)) / L == m since e + offset < L
    assert(0 <= e + rounding_offset(l) < bigl) by {
        if l >= 1 {
            vstd::arithmetic::power2::lemma_pow2_adds((l - 1) as nat, 1);
            vstd::arithmetic::power2::lemma2_to64();
        }
    }
    assert(e + bigl * m + rounding_offset(l) == bigl * m + (e + rounding_offset(l)));
    lemma_fundamental_div_mod_converse(
        e + bigl * m + rounding_offset(l),
        bigl,
        m,
        e + rounding_offset(l),
    );
}

/// Build a scheme, draw a random plaintext, encrypt it, and hand back
/// scheme, plaintext and ciphertext.  Decrypting the ciphertext provably
/// returns the plaintext.
pub fn init_lwe_with_random_ptxt(p_exponent: usize, q_exponent: usize, dimension: usize,
    pk_rows: usize) -> (r: (LweScheme, RingElement, Vec<RingElement>, RingElement))
    requires
        p_exponent <= q_exponent,
        q_exponent < 192,
    ensures
        r.0.wf(),
        r.0.p_exponent == p_exponent,
        r.0.q_exponent == q_exponent,
        r.0.dimension == dimension,
        r.1.val() < pow2(p_exponent as nat),
        r.0.is_ciphertext_of(r.2@, r.3, r.1.val() as int),
{
    let scheme = LweScheme::new(p_exponent, q_exponent, dimension, pk_rows);
    let ptxt = random_below_pow2(p_exponent);
    let (a, b) = scheme.encrypt(&ptxt);
    let test_decrypt = scheme.decrypt(&a, &b);
    proof {
        let e = choose|e: int| scheme.noise_explains(a@, b, ptxt.val() as int, e);
        lemma_decrypt_roundtrip(
            scheme.q_exponent as nat,
            scheme.p_exponent as nat,
            dot_vals(a@, scheme.sk@),
            b.val() as int,
            ptxt.val() as int,
            e,
        );
        assert(test_decrypt.val() == ptxt.val());
    }
    (scheme, ptxt, a, b)
}

} // verus!
