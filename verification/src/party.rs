//! Per-party state and the five round transitions of the distributed
//! decryption protocol.  Each field is filled exactly once; reading a
//! field before it is set is ruled out by the step preconditions.

use vstd::prelude::*;

verus! {

use vstd::arithmetic::power2::{pow2, lemma_pow2_pos, lemma2_to64};
use vstd::arithmetic::power::{pow, lemma_pow_multiplies};
use vstd::arithmetic::power2::lemma_pow2;
use vstd::arithmetic::div_mod::{lemma_small_mod, lemma_mod_bound, lemma_mod_twice};
use crate::ring::{RingElement, lemma_mod_add_combine, lemma_mod_sub_combine};
use crate::sharing::{AdditiveSecretSharing, sum_vals, reveal_val};
use crate::decomposition::{BaseDecomposition, digits_val};
use crate::params::PublicParameters;
use crate::lwe::dot_vals;
use crate::transfer::ProtocolTransferredData;

/// The linear combination a party forms in round two: the sum over the
/// first `j` digits of 2^j times its sign-table share at that digit,
/// all modulo 2^(d+1).
pub open spec fn weighted_signs_prefix(
    signs: Seq<Seq<RingElement>>,
    digits: Seq<u64>,
    j: int,
    bigd: int,
) -> int
    decreases j,
{
    if j <= 0 {
        0
    } else {
        (weighted_signs_prefix(signs, digits, j - 1, bigd) + pow2((j - 1) as nat) * signs[digits[j
            - 1] as int][j - 1].val()) % bigd
    }
}

/// One party of the distributed decryption protocol.
#[derive(Debug, Clone)]
pub struct Party {
    pub party_number: usize,
    pub params: PublicParameters,
    /// Ciphertext vector (public).
    pub a: Option<Vec<RingElement>>,
    /// Ciphertext scalar (public).
    pub b: Option<RingElement>,
    /// Share of the table secret s, ring d+1 (from preprocessing).
    pub s: Option<RingElement>,
    /// Share of z = b + 2^(l-1) + <a, sk>, ring k.
    pub z: Option<RingElement>,
    /// Share of the mask r, ring k (from preprocessing).
    pub r: Option<RingElement>,
    /// Share of the weighted sign combination, ring d+1.
    pub y: Option<RingElement>,
    /// Share of the comparison bit, ring m.
    pub u: Option<RingElement>,
    /// Share of the noise value removed from z, ring k.
    pub e: Option<RingElement>,
    /// Share of the LWE secret key, ring k.
    pub sk: Option<Vec<RingElement>>,
    /// Column of the less-than-zero table: 2^(d+1) shares in ring m.
    pub ltz: Option<Vec<RingElement>>,
    /// Columns of the sign tables: B rows, one share per digit (d columns).
    pub signs: Option<Vec<Vec<RingElement>>>,
    /// Share of z' = z + r mod L.
    pub z_prime: Option<RingElement>,
    /// Share of y' = y + s mod D.
    pub y_prime: Option<RingElement>,
    /// Share of o' = z - e mod q.
    pub o_prime: Option<RingElement>,
    /// All parties' z' shares, once round one's messages arrived.
    pub z_prime_all_parties: Option<Vec<RingElement>>,
    /// All parties' y' shares.
    pub y_prime_all_parties: Option<Vec<RingElement>>,
    /// All parties' o' shares.
    pub o_prime_all_parties: Option<Vec<RingElement>>,
    /// Share of the MAC key alpha, ring k+s.
    pub mac_alpha: Option<RingElement>,
    /// This party's shares of the three MAC masks.
    pub mac_r: Option<Vec<RingElement>>,
    /// This party's MAC check contribution, ring k+s.
    pub mac_z: Option<RingElement>,
    /// The public MAC challenge vector.
    pub mac_chi_values: Option<Vec<RingElement>>,
    /// Whether the MAC check of round five accepted.
    pub accepted: Option<bool>,
    /// The plaintext, emitted only when the MAC check accepted.
    pub plaintext: Option<RingElement>,
}

impl Party {
    pub fn get_params(&self) -> (r: &PublicParameters)
        ensures
            r == self.params,
    {
        &self.params
    }

    /// A fresh party with every protocol field still unset.
    pub fn new(party_number: usize, params: &PublicParameters) -> (r: Party)
        ensures
            r.party_number == party_number,
            r.params == params,
            r.a.is_none() && r.b.is_none() && r.s.is_none() && r.z.is_none() && r.r.is_none(),
            r.y.is_none() && r.u.is_none() && r.e.is_none() && r.sk.is_none() && r.ltz.is_none(),
            r.signs.is_none() && r.z_prime.is_none() && r.y_prime.is_none() && r.o_prime.is_none(),
            r.z_prime_all_parties.is_none() && r.y_prime_all_parties.is_none()
                && r.o_prime_all_parties.is_none(),
            r.mac_alpha.is_none() && r.mac_r.is_none() && r.mac_z.is_none()
                && r.mac_chi_values.is_none(),
            r.accepted.is_none() && r.plaintext.is_none(),
    {
        Party {
            party_number,
            params: params.clone(),
            a: None,
            b: None,
            s: None,
            z: None,
            r: None,
            y: None,
            u: None,
            e: None,
            sk: None,
            ltz: None,
            signs: None,
            z_prime: None,
            y_prime: None,
            o_prime: None,
            z_prime_all_parties: None,
            y_prime_all_parties: None,
            o_prime_all_parties: None,
            mac_alpha: None,
            mac_r: None,
            mac_z: None,
            mac_chi_values: None,
            accepted: None,
            plaintext: None,
        }
    }

    pub fn get_z_prime(&self) -> (r: &RingElement)
        requires
            self.z_prime.is_some(),
        ensures
            r == self.z_prime.unwrap(),
    {
        self.z_prime.as_ref().unwrap()
    }

    pub fn get_y_prime(&self) -> (r: &RingElement)
        requires
            self.y_prime.is_some(),
        ensures
            r == self.y_prime.unwrap(),
    {
        self.y_prime.as_ref().unwrap()
    }

    pub fn get_o_prime(&self) -> (r: &RingElement)
        requires
            self.o_prime.is_some(),
        ensures
            r == self.o_prime.unwrap(),
    {
        self.o_prime.as_ref().unwrap()
    }

    pub fn set_mac_alpha(&mut self, value: RingElement)
        ensures
            *final(self) == (Party { mac_alpha: Some(value), ..*old(self) }),
    {
        self.mac_alpha = Some(value);
    }

    pub fn set_mac_r(&mut self, value: Vec<RingElement>)
        ensures
            *final(self) == (Party { mac_r: Some(value), ..*old(self) }),
    {
        self.mac_r = Some(value);
    }

    pub fn set_mac_chi_values(&mut self, value: Vec<RingElement>)
        ensures
            *final(self) == (Party { mac_chi_values: Some(value), ..*old(self) }),
    {
        self.mac_chi_values = Some(value);
    }

    pub fn set_a(&mut self, value: Vec<RingElement>)
        ensures
            *final(self) == (Party { a: Some(value), ..*old(self) }),
    {
        self.a = Some(value);
    }

    pub fn set_b(&mut self, value: RingElement)
        ensures
            *final(self) == (Party { b: Some(value), ..*old(self) }),
    {
        self.b = Some(value);
    }

    pub fn set_s(&mut self, value: RingElement)
        ensures
            *final(self) == (Party { s: Some(value), ..*old(self) }),
    {
        self.s = Some(value);
    }

    pub fn set_r(&mut self, value: RingElement)
        ensures
            *final(self) == (Party { r: Some(value), ..*old(self) }),
    {
        self.r = Some(value);
    }

    pub fn set_z(&mut self, value: RingElement)
        ensures
            *final(self) == (Party { z: Some(value), ..*old(self) }),
    {
        self.z = Some(value);
    }

    pub fn set_sk(&mut self, value: Vec<RingElement>)
        ensures
            *final(self) == (Party { sk: Some(value), ..*old(self) }),
    {
        self.sk = Some(value);
    }

    pub fn set_ltz(&mut self, value: Vec<RingElement>)
        ensures
            *final(self) == (Party { ltz: Some(value), ..*old(self) }),
    {
        self.ltz = Some(value);
    }

    pub fn set_signs(&mut self, value: Vec<Vec<RingElement>>)
        ensures
            *final(self) == (Party { signs: Some(value), ..*old(self) }),
    {
        self.signs = Some(value);
    }

    /// The constant a party folds into its z share: only party 0 carries
    /// the public b and the centring term 2^(l-1).
    pub open spec fn spec_offset(self) -> int {
        if self.party_number == 0 {
            (self.b.unwrap().val() + pow2((self.params.l - 1) as nat)) as int
        } else {
            0
        }
    }

    /// Weighted sum of this party's sign-table shares at the given
    /// digits: sum of 2^j * signs[digit_j][j], reduced mod 2^(d+1).
    pub fn calc_weighted_sum(&self, z_prime_digits: &Vec<u64>) -> (r: RingElement)
        requires
            self.params.wf(),
            self.signs.is_some(),
            z_prime_digits@.len() == self.params.d,
            self.signs.unwrap()@.len() == self.params.big_b,
            forall|v: int| 0 <= v < self.signs.unwrap()@.len() ==> (
            #[trigger] self.signs.unwrap()@[v])@.len() == self.params.d,
            forall|j: int| 0 <= j < z_prime_digits@.len() ==> (#[trigger] z_prime_digits@[j])
                < self.params.big_b,
        ensures
            r.val() as int == weighted_signs_prefix(
                crate::mac::mat_rows(self.signs.unwrap()@),
                z_prime_digits@,
                self.params.d as int,
                pow2((self.params.d + 1) as nat) as int,
            ),
    {
        let d = self.params.d;
        let de = d + 1;
        let ghost bigd = pow2(de as nat) as int;
        let ghost sm = crate::mac::mat_rows(self.signs.unwrap()@);
        proof {
            lemma_pow2_pos(de as nat);
            lemma_small_mod(0, pow2(de as nat));
        }
        let signs = self.signs.as_ref().unwrap();
        let mut lin_comb = RingElement::zero();
        let mut j: usize = 0;
        proof {
            assert(weighted_signs_prefix(sm, z_prime_digits@, 0, bigd) == 0);
        }
        while j < d
            invariant
                j <= d,
                d == self.params.d,
                de == d + 1,
                de < 32,
                bigd == pow2(de as nat) as int,
                bigd > 0,
                sm == crate::mac::mat_rows(self.signs.unwrap()@),
                signs == self.signs.unwrap(),
                signs@.len() == self.params.big_b,
                forall|v: int| 0 <= v < signs@.len() ==> (#[trigger] signs@[v])@.len() == d,
                z_prime_digits@.len() == d,
                forall|j2: int| 0 <= j2 < z_prime_digits@.len() ==> (
                #[trigger] z_prime_digits@[j2]) < self.params.big_b,
                lin_comb.val() as int == weighted_signs_prefix(sm, z_prime_digits@, j as int, bigd),
            decreases d - j,
        {
            let digit = z_prime_digits[j];
            let digit_sign = signs[digit as usize][j];
            let two_pow = RingElement::pow2_elem(j);
            let term = two_pow.mul_mod(digit_sign, de);
            let new_lin = lin_comb.add_mod(term, de);
            proof {
                let sv = sm[digit as int][j as int].val() as int;
                lemma_mod_bound((lin_comb.val() + term.val()) as int, bigd);
                lemma_mod_twice((lin_comb.val() + term.val()) as int, bigd);
                lemma_mod_twice((pow2(j as nat) * sv) as int, bigd);
                lemma_mod_twice(lin_comb.val() as int, bigd);
                lemma_mod_add_combine(
                    lin_comb.val() as int,
                    term.val() as int,
                    lin_comb.val() as int,
                    pow2(j as nat) * sv,
                    bigd,
                );
                assert(sm[digit as int][j as int] == signs@[digit as int]@[j as int]);
            }
            lin_comb = new_lin;
            j = j + 1;
        }
        lin_comb
    }

    /// Round one is ready when the ciphertext, the key share and the mask
    /// share are in place.
    pub open spec fn step_one_pre(self) -> bool {
        &&& self.params.wf()
        &&& self.a.is_some()
        &&& self.b.is_some()
        &&& self.sk.is_some()
        &&& self.r.is_some()
        &&& self.a.unwrap()@.len() == self.sk.unwrap()@.len()
    }

    /// Round one: form the z share (only party 0 adds b and the centring
    /// term) and mask its low l bits with the r share.
    pub fn execute_step_one(&mut self, _input: Vec<ProtocolTransferredData>) -> (out:
        ProtocolTransferredData)
        requires
            old(self).step_one_pre(),
        ensures
            step_one_post(*old(self), *final(self), out),
    {
        let k = self.params.k;
        let l = self.params.l;
        let ghost q = pow2(k as nat) as int;
        proof {
            lemma_pow2_pos(k as nat);
            lemma_pow2_pos(l as nat);
        }
        let dot = crate::lwe::dot_mod(self.a.as_ref().unwrap(), self.sk.as_ref().unwrap(), k);
        let base = if self.party_number == 0 {
            let off = RingElement::pow2_elem(l - 1);
            self.b.as_ref().unwrap().add_mod(off, k)
        } else {
            RingElement::zero()
        };
        let z = base.add_mod(dot, k);
        proof {
            let off = self.spec_offset();
            let dv = dot_vals(self.a.unwrap()@, self.sk.unwrap()@);
            lemma_mod_twice(off, q);
            lemma_mod_twice(dv, q);
            if self.party_number == 0 {
                lemma_mod_add_combine(base.val() as int, dot.val() as int, off, dv, q);
            } else {
                lemma_small_mod(0, pow2(k as nat));
                lemma_mod_add_combine(base.val() as int, dot.val() as int, off, dv, q);
            }
        }
        let z_prime = z.add_mod(*self.r.as_ref().unwrap(), l);
        self.z = Some(z);
        self.z_prime = Some(z_prime);
        let mut out = ProtocolTransferredData::empty();
        out.z_prime = Some(z_prime);
        out
    }

    /// Round two is ready when this party's z' share, its s and sign
    /// table shares, and every peer's z' share have arrived.
    pub open spec fn step_two_pre(self, input: Seq<ProtocolTransferredData>) -> bool {
        &&& self.params.wf()
        &&& self.z_prime.is_some()
        &&& self.s.is_some()
        &&& self.signs.is_some()
        &&& self.signs.unwrap()@.len() == self.params.big_b
        &&& (forall|v: int| 0 <= v < self.signs.unwrap()@.len() ==> (
        #[trigger] self.signs.unwrap()@[v])@.len() == self.params.d)
        &&& input.len() == self.params.n - 1
        &&& (forall|i: int| 0 <= i < input.len() ==> (#[trigger] input[i]).z_prime.is_some())
    }

    /// The digits of the revealed value, padded with zeros to d places.
    pub open spec fn is_padded_digits(digits: Seq<u64>, value: int, base: int, d: int) -> bool {
        &&& digits.len() == d
        &&& digits_val(digits, base) == value
        &&& (forall|j: int| 0 <= j < digits.len() ==> (#[trigger] digits[j]) < base)
    }

    /// Round two: reconstruct z', decompose it into digits, pick the sign
    /// shares at those digits, and mask the combination with the s share.
    #[verifier::rlimit(60)]
    pub fn execute_step_two(&mut self, input: Vec<ProtocolTransferredData>) -> (out:
        ProtocolTransferredData)
        requires
            old(self).step_two_pre(input@),
        ensures
            step_two_post(*old(self), *final(self), input@, out),
    {
        let n = self.params.n;
        let l = self.params.l;
        let de = self.params.d + 1;
        let mut z_prime_shares: Vec<RingElement> = Vec::new();
        z_prime_shares.push(*self.z_prime.as_ref().unwrap());
        let mut i: usize = 0;
        while i < n - 1
            invariant
                i <= n - 1,
                input@.len() == n - 1,
                forall|i2: int| 0 <= i2 < input@.len() ==> (#[trigger] input@[i2]).z_prime.is_some(),
                z_prime_shares@.len() == i + 1,
                z_prime_shares@[0] == self.z_prime.unwrap(),
                forall|i2: int| 1 <= i2 <= i ==> z_prime_shares@[i2] == (#[trigger] input@[i2
                    - 1]).z_prime.unwrap(),
                self.z_prime.is_some(),
            decreases n - 1 - i,
        {
            z_prime_shares.push(*input[i].z_prime.as_ref().unwrap());
            i = i + 1;
        }
        proof {
            assert(z_prime_shares@ =~= gathered(self.z_prime.unwrap(), peer_z_primes(input@)));
        }
        let sorted = crate::sharing::sort_shares(z_prime_shares);
        let z_prime = AdditiveSecretSharing::reveal_shares(&sorted, l);
        let digits = self.padded_digits_of(&z_prime);
        let y = self.calc_weighted_sum(&digits);
        let y_prime = y.add_mod(*self.s.as_ref().unwrap(), de);
        self.z_prime_all_parties = Some(sorted);
        self.y = Some(y);
        self.y_prime = Some(y_prime);
        let mut out = ProtocolTransferredData::empty();
        out.y_prime = Some(y_prime);
        proof {
            let pre = *old(self);
            let post = *self;
            assert(Party::is_padded_digits(
                digits@,
                reveal_val(post.z_prime_all_parties.unwrap()@, pre.params.l as nat),
                pre.params.big_b as int,
                pre.params.d as int,
            ) && post.y.unwrap().val() as int == weighted_signs_prefix(
                crate::mac::mat_rows(pre.signs.unwrap()@),
                digits@,
                pre.params.d as int,
                pow2((pre.params.d + 1) as nat) as int,
            ));
            assert(step_two_post(pre, post, input@, out));
        }
        out
    }

    /// Decompose a revealed value (below 2^l) in base B and pad the digit
    /// vector with zeros to exactly d digits.
    pub fn padded_digits_of(&self, value: &RingElement) -> (digits: Vec<u64>)
        requires
            self.params.wf(),
            value.val() < pow2(self.params.l as nat),
        ensures
            Party::is_padded_digits(
                digits@,
                value.val() as int,
                self.params.big_b as int,
                self.params.d as int,
            ),
    {
        padded_digits(&self.params, value)
    }

    /// Round three is ready when the y' shares of every party, the LTZ
    /// table column, and the round-one material are in place.
    pub open spec fn step_three_pre(self, input: Seq<ProtocolTransferredData>) -> bool {
        &&& self.params.wf()
        &&& self.y_prime.is_some()
        &&& self.z.is_some()
        &&& self.r.is_some()
        &&& self.z_prime_all_parties.is_some()
        &&& self.ltz.is_some()
        &&& self.ltz.unwrap()@.len() == self.params.big_d
        &&& input.len() == self.params.n - 1
        &&& (forall|i: int| 0 <= i < input.len() ==> (#[trigger] input[i]).y_prime.is_some())
    }

    /// Round three: reconstruct y', look the comparison bit up in the LTZ
    /// table, rebuild the masked noise e and emit the share of o' = z - e.
    #[verifier::rlimit(60)]
    pub fn execute_step_three(&mut self, input: Vec<ProtocolTransferredData>) -> (out:
        ProtocolTransferredData)
        requires
            old(self).step_three_pre(input@),
        ensures
            step_three_post(*old(self), *final(self), input@, out),
    {
        let n = self.params.n;
        let k = self.params.k;
        let l = self.params.l;
        let de = self.params.d + 1;
        let ghost q = pow2(k as nat) as int;
        proof {
            lemma_pow2_pos(k as nat);
            lemma_pow2_pos(l as nat);
        }
        let mut y_prime_shares: Vec<RingElement> = Vec::new();
        y_prime_shares.push(*self.y_prime.as_ref().unwrap());
        let mut i: usize = 0;
        while i < n - 1
            invariant
                i <= n - 1,
                input@.len() == n - 1,
                forall|i2: int| 0 <= i2 < input@.len() ==> (#[trigger] input@[i2]).y_prime.is_some(),
                y_prime_shares@.len() == i + 1,
                y_prime_shares@[0] == self.y_prime.unwrap(),
                forall|i2: int| 1 <= i2 <= i ==> y_prime_shares@[i2] == (#[trigger] input@[i2
                    - 1]).y_prime.unwrap(),
                self.y_prime.is_some(),
            decreases n - 1 - i,
        {
            y_prime_shares.push(*input[i].y_prime.as_ref().unwrap());
            i = i + 1;
        }
        proof {
            assert(y_prime_shares@ =~= gathered(self.y_prime.unwrap(), peer_y_primes(input@)));
        }
        let sorted = crate::sharing::sort_shares(y_prime_shares);
        let y_prime = AdditiveSecretSharing::reveal_shares(&sorted, de);
        proof {
            lemma2_to64();
            if de < 31 {
                vstd::arithmetic::power2::lemma_pow2_strictly_increases(de as nat, 31);
            }
        }
        let idx = y_prime.as_u64() as usize;
        let u = self.ltz.as_ref().unwrap()[idx];
        // e = z' (party 0 only) - r + L * u  (mod q)
        let z_prime_pub = AdditiveSecretSharing::reveal_shares(
            self.z_prime_all_parties.as_ref().unwrap(),
            l,
        );
        let base = if self.party_number == 0 {
            z_prime_pub
        } else {
            RingElement::zero()
        };
        let lu = RingElement::pow2_elem(l).mul_mod(u, k);
        let e = base.sub_mod(*self.r.as_ref().unwrap(), k).add_mod(lu, k);
        proof {
            let bv = if self.party_number == 0 {
                reveal_val(self.z_prime_all_parties.unwrap()@, l as nat)
            } else {
                0int
            };
            let rv = self.r.unwrap().val() as int;
            let uv = u.val() as int;
            lemma_mod_twice(bv - rv, q);
            lemma_mod_twice((pow2(l as nat) * uv) as int, q);
            lemma_mod_add_combine(
                (bv - rv) % q,
                (pow2(l as nat) * uv) as int % q,
                bv - rv,
                (pow2(l as nat) * uv) as int,
                q,
            );
        }
        let o_prime = self.z.as_ref().unwrap().sub_mod(e, k);
        self.y_prime_all_parties = Some(sorted);
        self.u = Some(u);
        self.e = Some(e);
        self.o_prime = Some(o_prime);
        let mut out = ProtocolTransferredData::empty();
        out.o_prime = Some(o_prime);
        out
    }

    /// Round four is ready when this party's o' share, the stored z' and
    /// y' share lists, the MAC material, and every peer's o' share are in
    /// place.
    pub open spec fn step_four_pre(self, input: Seq<ProtocolTransferredData>) -> bool {
        &&& self.params.wf()
        &&& self.o_prime.is_some()
        &&& self.z_prime_all_parties.is_some()
        &&& self.y_prime_all_parties.is_some()
        &&& self.z_prime_all_parties.unwrap()@.len() == self.params.n
        &&& self.y_prime_all_parties.unwrap()@.len() == self.params.n
        &&& self.mac_alpha.is_some()
        &&& self.mac_r.is_some()
        &&& self.mac_r.unwrap()@.len() == 3
        &&& self.mac_chi_values.is_some()
        &&& self.mac_chi_values.unwrap()@.len() == 3
        &&& self.party_number < self.params.n
        &&& input.len() == self.params.n - 1
        &&& (forall|i: int| 0 <= i < input.len() ==> (#[trigger] input[i]).o_prime.is_some())
    }

    /// Round four: collect the o' shares, then batch-open the three round
    /// values locally and combine them with the challenge into this
    /// party's MAC check share.
    #[verifier::rlimit(60)]
    pub fn execute_step_four(&mut self, input: Vec<ProtocolTransferredData>) -> (out:
        ProtocolTransferredData)
        requires
            old(self).step_four_pre(input@),
        ensures
            step_four_post(*old(self), *final(self), input@, out),
    {
        let n = self.params.n;
        let ks = self.params.mac_ks;
        let k = self.params.mac_k;
        let me = self.party_number;
        let ghost q = pow2(ks as nat) as int;
        proof {
            lemma_pow2_pos(ks as nat);
        }
        let mut o_prime_shares: Vec<RingElement> = Vec::new();
        o_prime_shares.push(*self.o_prime.as_ref().unwrap());
        let mut i: usize = 0;
        while i < n - 1
            invariant
                i <= n - 1,
                input@.len() == n - 1,
                forall|i2: int| 0 <= i2 < input@.len() ==> (#[trigger] input@[i2]).o_prime.is_some(),
                o_prime_shares@.len() == i + 1,
                o_prime_shares@[0] == self.o_prime.unwrap(),
                forall|i2: int| 1 <= i2 <= i ==> o_prime_shares@[i2] == (#[trigger] input@[i2
                    - 1]).o_prime.unwrap(),
                self.o_prime.is_some(),
            decreases n - 1 - i,
        {
            o_prime_shares.push(*input[i].o_prime.as_ref().unwrap());
            i = i + 1;
        }
        proof {
            assert(o_prime_shares@ =~= gathered(self.o_prime.unwrap(), peer_o_primes(input@)));
        }
        let sorted = crate::sharing::sort_shares(o_prime_shares);
        self.o_prime_all_parties = Some(sorted);
        let alpha = *self.mac_alpha.as_ref().unwrap();
        let chi = self.mac_chi_values.as_ref().unwrap();
        let mac_r = self.mac_r.as_ref().unwrap();
        let c0 = masked_column(self.z_prime_all_parties.as_ref().unwrap(), mac_r[0], k, ks);
        let c1 = masked_column(self.y_prime_all_parties.as_ref().unwrap(), mac_r[1], k, ks);
        let c2 = masked_column(self.o_prime_all_parties.as_ref().unwrap(), mac_r[2], k, ks);
        let xt0 = AdditiveSecretSharing::reveal_shares(&c0, ks);
        let xt1 = AdditiveSecretSharing::reveal_shares(&c1, ks);
        let xt2 = AdditiveSecretSharing::reveal_shares(&c2, ks);
        proof {
            lemma_sum_vals_matches(
                c0@,
                masked_col_vals(
                    self.z_prime_all_parties.unwrap()@,
                    self.mac_r.unwrap()@[0].val() as int,
                    k as nat,
                    ks as nat,
                ),
            );
            lemma_sum_vals_matches(
                c1@,
                masked_col_vals(
                    self.y_prime_all_parties.unwrap()@,
                    self.mac_r.unwrap()@[1].val() as int,
                    k as nat,
                    ks as nat,
                ),
            );
            lemma_sum_vals_matches(
                c2@,
                masked_col_vals(
                    self.o_prime_all_parties.unwrap()@,
                    self.mac_r.unwrap()@[2].val() as int,
                    k as nat,
                    ks as nat,
                ),
            );
        }
        let y_tilde = mod_dot3(chi[0], xt0, chi[1], xt1, chi[2], xt2, ks);
        let m0 = alpha.mul_mod(c0[me], ks);
        let m1 = alpha.mul_mod(c1[me], ks);
        let m2 = alpha.mul_mod(c2[me], ks);
        let m_tilde = mod_dot3(chi[0], m0, chi[1], m1, chi[2], m2, ks);
        let z = m_tilde.sub_mod(alpha.mul_mod(y_tilde, ks), ks);
        proof {
            let av = alpha.val() as int;
            let yv = y_tilde.val() as int;
            lemma_mod_twice(m_tilde.val() as int, q);
            lemma_mod_twice((av * yv) as int, q);
            lemma_mod_sub_combine(
                m_tilde.val() as int,
                (av * yv) as int % q,
                m_tilde.val() as int,
                av * yv,
                q,
            );
        }
        self.mac_z = Some(z);
        let mut out = ProtocolTransferredData::empty();
        out.mac_z = Some(z);
        out
    }

    /// Round five is ready when this party's MAC check share, the o'
    /// share list, and every peer's MAC check share are in place.
    pub open spec fn step_five_pre(self, input: Seq<ProtocolTransferredData>) -> bool {
        &&& self.params.wf()
        &&& self.mac_z.is_some()
        &&& self.o_prime_all_parties.is_some()
        &&& input.len() == self.params.n - 1
        &&& (forall|i: int| 0 <= i < input.len() ==> (#[trigger] input[i]).mac_z.is_some())
    }

    /// Round five: sum the MAC check shares and decide.  On acceptance
    /// the plaintext is the revealed o' rounded to the nearest multiple
    /// of L; on failure no plaintext is emitted.
    #[verifier::rlimit(60)]
    pub fn execute_step_five(&mut self, input: Vec<ProtocolTransferredData>) -> (out:
        ProtocolTransferredData)
        requires
            old(self).step_five_pre(input@),
        ensures
            step_five_post(*old(self), *final(self), input@, out),
    {
        let n = self.params.n;
        let ks = self.params.mac_ks;
        let k = self.params.k;
        let l = self.params.l;
        let mut z_shares: Vec<RingElement> = Vec::new();
        z_shares.push(*self.mac_z.as_ref().unwrap());
        let mut i: usize = 0;
        while i < n - 1
            invariant
                i <= n - 1,
                input@.len() == n - 1,
                forall|i2: int| 0 <= i2 < input@.len() ==> (#[trigger] input@[i2]).mac_z.is_some(),
                z_shares@.len() == i + 1,
                z_shares@[0] == self.mac_z.unwrap(),
                forall|i2: int| 1 <= i2 <= i ==> z_shares@[i2] == (#[trigger] input@[i2
                    - 1]).mac_z.unwrap(),
                self.mac_z.is_some(),
            decreases n - 1 - i,
        {
            z_shares.push(*input[i].mac_z.as_ref().unwrap());
            i = i + 1;
        }
        proof {
            assert(z_shares@ =~= gathered(self.mac_z.unwrap(), peer_mac_zs(input@)));
        }
        let z_sum = AdditiveSecretSharing::reveal_shares(&z_shares, ks);
        if z_sum.is_zero() {
            // accept: the plaintext is reveal(o') rounded by L
            let o_prime = AdditiveSecretSharing::reveal_shares(
                self.o_prime_all_parties.as_ref().unwrap(),
                k,
            );
            let half = RingElement::pow2_elem(l - 1);
            let shifted = o_prime.add_mod(half, 192);
            proof {
                vstd::arithmetic::power2::lemma_pow2_strictly_increases(k as nat, 192);
                vstd::arithmetic::power2::lemma_pow2_strictly_increases((l - 1) as nat, k as nat);
                vstd::arithmetic::power2::lemma_pow2_adds(k as nat, 1);
                lemma2_to64();
                if k + 1 < 192 {
                    vstd::arithmetic::power2::lemma_pow2_strictly_increases((k + 1) as nat, 192);
                }
                lemma_small_mod((o_prime.val() + half.val()) as nat, pow2(192));
            }
            self.plaintext = Some(shifted.shr(l));
            self.accepted = Some(true);
        } else {
            // the MAC check failed: no plaintext leaves this party
            self.plaintext = None;
            self.accepted = Some(false);
        }
        ProtocolTransferredData::empty()
    }

    /// Which round the given step number is ready to run.
    pub open spec fn step_pre(self, step_number: usize, input: Seq<ProtocolTransferredData>)
        -> bool {
        if step_number == 0 {
            self.step_one_pre()
        } else if step_number == 1 {
            self.step_two_pre(input)
        } else if step_number == 2 {
            self.step_three_pre(input)
        } else if step_number == 3 {
            self.step_four_pre(input)
        } else if step_number == 4 {
            self.step_five_pre(input)
        } else {
            false
        }
    }

    /// Run one protocol round: a dispatch that carries each round's full
    /// contract.
    pub fn execute_step(&mut self, step_number: usize, input: Vec<ProtocolTransferredData>) -> (out:
        ProtocolTransferredData)
        requires
            old(self).step_pre(step_number, input@),
        ensures
            step_number == 0 ==> step_one_post(*old(self), *final(self), out),
            step_number == 1 ==> step_two_post(*old(self), *final(self), input@, out),
            step_number == 2 ==> step_three_post(*old(self), *final(self), input@, out),
            step_number == 3 ==> step_four_post(*old(self), *final(self), input@, out),
            step_number == 4 ==> step_five_post(*old(self), *final(self), input@, out),
    {
        if step_number == 0 {
            self.execute_step_one(input)
        } else if step_number == 1 {
            self.execute_step_two(input)
        } else if step_number == 2 {
            self.execute_step_three(input)
        } else if step_number == 3 {
            self.execute_step_four(input)
        } else {
            self.execute_step_five(input)
        }
    }
}

/// Only the listed fields of an outgoing envelope carry values.
pub open spec fn envelope_with(
    out: ProtocolTransferredData,
    z_prime: Option<RingElement>,
    y_prime: Option<RingElement>,
    o_prime: Option<RingElement>,
    mac_z: Option<RingElement>,
) -> bool {
    &&& out.preprocessed.is_none()
    &&& out.a.is_none()
    &&& out.b.is_none()
    &&& out.mac_alpha.is_none()
    &&& out.mac_r.is_none()
    &&& out.mac_chi_vals.is_none()
    &&& out.z_prime == z_prime
    &&& out.y_prime == y_prime
    &&& out.o_prime == o_prime
    &&& out.mac_z == mac_z
}

/// The shares of one round as collected: this party's own share first,
/// then the peers' in arrival order.
pub open spec fn gathered(own: RingElement, peers: Seq<RingElement>) -> Seq<RingElement> {
    seq![own] + peers
}

pub open spec fn peer_z_primes(input: Seq<ProtocolTransferredData>) -> Seq<RingElement> {
    Seq::new(input.len(), |i: int| input[i].z_prime.unwrap())
}

pub open spec fn peer_y_primes(input: Seq<ProtocolTransferredData>) -> Seq<RingElement> {
    Seq::new(input.len(), |i: int| input[i].y_prime.unwrap())
}

pub open spec fn peer_o_primes(input: Seq<ProtocolTransferredData>) -> Seq<RingElement> {
    Seq::new(input.len(), |i: int| input[i].o_prime.unwrap())
}

pub open spec fn peer_mac_zs(input: Seq<ProtocolTransferredData>) -> Seq<RingElement> {
    Seq::new(input.len(), |i: int| input[i].mac_z.unwrap())
}

/// A stored share list: the collected shares, sorted ascending by value
/// (the sort-before-sum convention; a reveal is order-independent).
pub open spec fn is_sorted_copy(stored: Seq<RingElement>, collected: Seq<RingElement>) -> bool {
    &&& stored.len() == collected.len()
    &&& crate::sharing::sorted_by_val(stored)
    &&& stored.to_multiset() == collected.to_multiset()
}

/// What round one leaves behind: the z and z' shares, everything else
/// untouched, and an envelope carrying only z'.
pub open spec fn step_one_post(pre: Party, post: Party, out: ProtocolTransferredData) -> bool {
    &&& post.z.is_some()
    &&& post.z_prime.is_some()
    &&& post.z.unwrap().val() as int == (pre.spec_offset() + dot_vals(
        pre.a.unwrap()@,
        pre.sk.unwrap()@,
    )) % (pow2(pre.params.k as nat) as int)
    &&& post.z_prime.unwrap().val() as int == (post.z.unwrap().val()
        + pre.r.unwrap().val()) as int % (pow2(pre.params.l as nat) as int)
    &&& post == (Party { z: post.z, z_prime: post.z_prime, ..pre })
    &&& envelope_with(out, Some(post.z_prime.unwrap()), None, None, None)
}

/// What round two leaves behind: the sorted z' share list, the weighted
/// sign combination y over the digits of the revealed z', and y' = y + s.
pub open spec fn step_two_post(
    pre: Party,
    post: Party,
    input: Seq<ProtocolTransferredData>,
    out: ProtocolTransferredData,
) -> bool {
    &&& post.z_prime_all_parties.is_some()
    &&& is_sorted_copy(
        post.z_prime_all_parties.unwrap()@,
        gathered(pre.z_prime.unwrap(), peer_z_primes(input)),
    )
    &&& post.y.is_some()
    &&& post.y_prime.is_some()
    &&& (exists|digits: Seq<u64>|
        Party::is_padded_digits(
            digits,
            reveal_val(post.z_prime_all_parties.unwrap()@, pre.params.l as nat),
            pre.params.big_b as int,
            pre.params.d as int,
        ) && post.y.unwrap().val() as int == weighted_signs_prefix(
            crate::mac::mat_rows(pre.signs.unwrap()@),
            digits,
            pre.params.d as int,
            pow2((pre.params.d + 1) as nat) as int,
        ))
    &&& post.y_prime.unwrap().val() as int == (post.y.unwrap().val()
        + pre.s.unwrap().val()) as int % (pow2((pre.params.d + 1) as nat) as int)
    &&& post == (Party {
        z_prime_all_parties: post.z_prime_all_parties,
        y: post.y,
        y_prime: post.y_prime,
        ..pre
    })
    &&& envelope_with(out, None, Some(post.y_prime.unwrap()), None, None)
}

/// What round three leaves behind: the sorted y' list, the comparison
/// bit u from the LTZ table at the revealed y', the masked noise e and
/// the share of o' = z - e.
pub open spec fn step_three_post(
    pre: Party,
    post: Party,
    input: Seq<ProtocolTransferredData>,
    out: ProtocolTransferredData,
) -> bool {
    &&& post.y_prime_all_parties.is_some()
    &&& is_sorted_copy(
        post.y_prime_all_parties.unwrap()@,
        gathered(pre.y_prime.unwrap(), peer_y_primes(input)),
    )
    &&& post.u == Some(
        pre.ltz.unwrap()@[reveal_val(
            post.y_prime_all_parties.unwrap()@,
            (pre.params.d + 1) as nat,
        )],
    )
    &&& post.e.is_some()
    &&& post.e.unwrap().val() as int == ((if pre.party_number == 0 {
        reveal_val(pre.z_prime_all_parties.unwrap()@, pre.params.l as nat)
    } else {
        0int
    }) - pre.r.unwrap().val() + pow2(pre.params.l as nat) * post.u.unwrap().val()) % (pow2(
        pre.params.k as nat,
    ) as int)
    &&& post.o_prime.is_some()
    &&& post.o_prime.unwrap().val() as int == (pre.z.unwrap().val() as int
        - post.e.unwrap().val() as int) % (pow2(pre.params.k as nat) as int)
    &&& post == (Party {
        y_prime_all_parties: post.y_prime_all_parties,
        u: post.u,
        e: post.e,
        o_prime: post.o_prime,
        ..pre
    })
    &&& envelope_with(out, None, None, Some(post.o_prime.unwrap()), None)
}

/// What round four leaves behind: the sorted o' list and this party's
/// MAC check share, pinned exactly by `mac_z_spec`.
pub open spec fn step_four_post(
    pre: Party,
    post: Party,
    input: Seq<ProtocolTransferredData>,
    out: ProtocolTransferredData,
) -> bool {
    &&& post.o_prime_all_parties.is_some()
    &&& is_sorted_copy(
        post.o_prime_all_parties.unwrap()@,
        gathered(pre.o_prime.unwrap(), peer_o_primes(input)),
    )
    &&& post.mac_z.is_some()
    &&& post.mac_z.unwrap().val() as int == mac_z_spec(post)
    &&& post == (Party {
        o_prime_all_parties: post.o_prime_all_parties,
        mac_z: post.mac_z,
        ..pre
    })
    &&& envelope_with(out, None, None, None, Some(post.mac_z.unwrap()))
}

/// What round five decides: accept exactly when the MAC check shares sum
/// to zero; on acceptance the plaintext is the revealed o' rounded to the
/// nearest multiple of 2^l, and on failure no plaintext is emitted.
pub open spec fn step_five_post(
    pre: Party,
    post: Party,
    input: Seq<ProtocolTransferredData>,
    out: ProtocolTransferredData,
) -> bool {
    &&& post.accepted == Some(
        reveal_val(gathered(pre.mac_z.unwrap(), peer_mac_zs(input)), pre.params.mac_ks as nat)
            == 0,
    )
    &&& (post.accepted == Some(true) ==> post.plaintext.is_some()
        && post.plaintext.unwrap().val() as int == (reveal_val(
        pre.o_prime_all_parties.unwrap()@,
        pre.params.k as nat,
    ) + pow2((pre.params.l - 1) as nat)) / (pow2(pre.params.l as nat) as int))
    &&& (post.accepted == Some(false) ==> post.plaintext.is_none())
    &&& post == (Party { accepted: post.accepted, plaintext: post.plaintext, ..pre })
    &&& envelope_with(out, None, None, None, None)
}

impl Party {
    /// Decide at run time whether a round can be executed; a message or
    /// state that fails this test is dropped rather than acted on.
    pub fn check_step_pre(&self, step_number: usize, input: &Vec<ProtocolTransferredData>) -> (r:
        bool)
        ensures
            r == self.step_pre(step_number, input@),
    {
        if !self.params.check() {
            proof {
                assert(!self.step_pre(step_number, input@));
            }
            return false;
        }
        if step_number == 0 {
            self.a.is_some() && self.b.is_some() && self.sk.is_some() && self.r.is_some()
                && self.a.as_ref().unwrap().len() == self.sk.as_ref().unwrap().len()
        } else if step_number == 1 {
            self.z_prime.is_some() && self.s.is_some() && self.signs.is_some()
                && self.signs.as_ref().unwrap().len() == self.params.big_b && all_rows_have_len(
                self.signs.as_ref().unwrap(),
                self.params.d,
            ) && input.len() == self.params.n - 1 && all_z_prime_some(input)
        } else if step_number == 2 {
            self.y_prime.is_some() && self.z.is_some() && self.r.is_some()
                && self.z_prime_all_parties.is_some() && self.ltz.is_some()
                && self.ltz.as_ref().unwrap().len() == self.params.big_d && input.len()
                == self.params.n - 1 && all_y_prime_some(input)
        } else if step_number == 3 {
            self.o_prime.is_some() && self.z_prime_all_parties.is_some()
                && self.y_prime_all_parties.is_some()
                && self.z_prime_all_parties.as_ref().unwrap().len() == self.params.n
                && self.y_prime_all_parties.as_ref().unwrap().len() == self.params.n
                && self.mac_alpha.is_some() && self.mac_r.is_some()
                && self.mac_r.as_ref().unwrap().len() == 3 && self.mac_chi_values.is_some()
                && self.mac_chi_values.as_ref().unwrap().len() == 3 && self.party_number
                < self.params.n && input.len() == self.params.n - 1 && all_o_prime_some(input)
        } else if step_number == 4 {
            self.mac_z.is_some() && self.o_prime_all_parties.is_some() && input.len()
                == self.params.n - 1 && all_mac_z_some(input)
        } else {
            false
        }
    }
}

/// Whether every envelope carries an o' share.
fn all_o_prime_some(input: &Vec<ProtocolTransferredData>) -> (r: bool)
    ensures
        r == (forall|i: int| 0 <= i < input@.len() ==> (#[trigger] input@[i]).o_prime.is_some()),
{
    let mut i: usize = 0;
    while i < input.len()
        invariant
            i <= input@.len(),
            forall|i2: int| 0 <= i2 < i ==> (#[trigger] input@[i2]).o_prime.is_some(),
        decreases input@.len() - i,
    {
        if input[i].o_prime.is_none() {
            return false;
        }
        i = i + 1;
    }
    true
}

/// Whether every row of the matrix has the given length.
fn all_rows_have_len(m: &Vec<Vec<RingElement>>, d: usize) -> (r: bool)
    ensures
        r == (forall|v: int| 0 <= v < m@.len() ==> (#[trigger] m@[v])@.len() == d),
{
    let mut i: usize = 0;
    while i < m.len()
        invariant
            i <= m@.len(),
            forall|v: int| 0 <= v < i ==> (#[trigger] m@[v])@.len() == d,
        decreases m@.len() - i,
    {
        if m[i].len() != d {
            return false;
        }
        i = i + 1;
    }
    true
}

/// Whether every envelope carries a z' share.
fn all_z_prime_some(input: &Vec<ProtocolTransferredData>) -> (r: bool)
    ensures
        r == (forall|i: int| 0 <= i < input@.len() ==> (#[trigger] input@[i]).z_prime.is_some()),
{
    let mut i: usize = 0;
    while i < input.len()
        invariant
            i <= input@.len(),
            forall|i2: int| 0 <= i2 < i ==> (#[trigger] input@[i2]).z_prime.is_some(),
        decreases input@.len() - i,
    {
        if input[i].z_prime.is_none() {
            return false;
        }
        i = i + 1;
    }
    true
}

/// Whether every envelope carries a y' share.
fn all_y_prime_some(input: &Vec<ProtocolTransferredData>) -> (r: bool)
    ensures
        r == (forall|i: int| 0 <= i < input@.len() ==> (#[trigger] input@[i]).y_prime.is_some()),
{
    let mut i: usize = 0;
    while i < input.len()
        invariant
            i <= input@.len(),
            forall|i2: int| 0 <= i2 < i ==> (#[trigger] input@[i2]).y_prime.is_some(),
        decreases input@.len() - i,
    {
        if input[i].y_prime.is_none() {
            return false;
        }
        i = i + 1;
    }
    true
}

/// Whether every envelope carries a MAC check share.
fn all_mac_z_some(input: &Vec<ProtocolTransferredData>) -> (r: bool)
    ensures
        r == (forall|i: int| 0 <= i < input@.len() ==> (#[trigger] input@[i]).mac_z.is_some()),
{
    let mut i: usize = 0;
    while i < input.len()
        invariant
            i <= input@.len(),
            forall|i2: int| 0 <= i2 < i ==> (#[trigger] input@[i2]).mac_z.is_some(),
        decreases input@.len() - i,
    {
        if input[i].mac_z.is_none() {
            return false;
        }
        i = i + 1;
    }
    true
}

/// The masked column values: each share plus 2^k times the mask share,
/// in the large ring.
pub open spec fn masked_col_vals(src: Seq<RingElement>, rj: int, k: nat, ks: nat) -> Seq<int> {
    Seq::new(src.len(), |i: int| (src[i].val() + pow2(k) * rj) % (pow2(ks) as int))
}

/// The opened (masked) value of one column in round four.
pub open spec fn mac_xtilde(src: Seq<RingElement>, rj: int, k: nat, ks: nat) -> int {
    crate::sharing::int_sum(masked_col_vals(src, rj, k, ks)) % (pow2(ks) as int)
}

/// chi-weighted combination of three values, in the large ring.
pub open spec fn mod_dot3_spec(c0: int, v0: int, c1: int, v1: int, c2: int, v2: int, ks: nat)
    -> int {
    (((c0 * v0) % (pow2(ks) as int) + (c1 * v1) % (pow2(ks) as int)) % (pow2(ks) as int) + (c2 * v2)
        % (pow2(ks) as int)) % (pow2(ks) as int)
}

/// The MAC check share a party publishes in round four, as a function of
/// its state: the chi-combination of its own MAC shares minus alpha times
/// the chi-combination of the opened values.
pub open spec fn mac_z_spec(p: Party) -> int {
    let k = p.params.mac_k as nat;
    let ks = p.params.mac_ks as nat;
    let q = pow2(ks) as int;
    let chi = p.mac_chi_values.unwrap()@;
    let rr = p.mac_r.unwrap()@;
    let me = p.party_number as int;
    let xt0 = mac_xtilde(p.z_prime_all_parties.unwrap()@, rr[0].val() as int, k, ks);
    let xt1 = mac_xtilde(p.y_prime_all_parties.unwrap()@, rr[1].val() as int, k, ks);
    let xt2 = mac_xtilde(p.o_prime_all_parties.unwrap()@, rr[2].val() as int, k, ks);
    let yt = mod_dot3_spec(
        chi[0].val() as int,
        xt0,
        chi[1].val() as int,
        xt1,
        chi[2].val() as int,
        xt2,
        ks,
    );
    let m0 = (p.mac_alpha.unwrap().val() * masked_col_vals(
        p.z_prime_all_parties.unwrap()@,
        rr[0].val() as int,
        k,
        ks,
    )[me]) % q;
    let m1 = (p.mac_alpha.unwrap().val() * masked_col_vals(
        p.y_prime_all_parties.unwrap()@,
        rr[1].val() as int,
        k,
        ks,
    )[me]) % q;
    let m2 = (p.mac_alpha.unwrap().val() * masked_col_vals(
        p.o_prime_all_parties.unwrap()@,
        rr[2].val() as int,
        k,
        ks,
    )[me]) % q;
    let mt = mod_dot3_spec(
        chi[0].val() as int,
        m0,
        chi[1].val() as int,
        m1,
        chi[2].val() as int,
        m2,
        ks,
    );
    (mt - (p.mac_alpha.unwrap().val() * yt)) % q
}

/// Mask a share column for the batch opening: entry i becomes
/// src[i] + 2^k * rj, reduced in the large ring.
fn masked_column(src: &Vec<RingElement>, rj: RingElement, k: usize, ks: usize) -> (r: Vec<
    RingElement,
>)
    requires
        k < 192,
        k <= ks <= 192,
    ensures
        r@.len() == src@.len(),
        forall|i: int| 0 <= i < r@.len() ==> (#[trigger] r@[i]).val() as int == masked_col_vals(
            src@,
            rj.val() as int,
            k as nat,
            ks as nat,
        )[i],
{
    let ghost q = pow2(ks as nat) as int;
    proof {
        lemma_pow2_pos(ks as nat);
    }
    let shift = RingElement::pow2_elem(k);
    let mut r: Vec<RingElement> = Vec::new();
    let mut i: usize = 0;
    while i < src.len()
        invariant
            i <= src@.len(),
            k < 192,
            ks <= 192,
            q == pow2(ks as nat) as int,
            q > 0,
            shift.val() == pow2(k as nat),
            r@.len() == i,
            forall|i2: int| 0 <= i2 < r@.len() ==> (#[trigger] r@[i2]).val() as int
                == masked_col_vals(src@, rj.val() as int, k as nat, ks as nat)[i2],
        decreases src@.len() - i,
    {
        let masked = src[i].add_mod(shift.mul_mod(rj, ks), ks);
        proof {
            let xi = src@[i as int].val() as int;
            let rv = rj.val() as int;
            lemma_mod_twice((pow2(k as nat) * rv) as int, q);
            lemma_mod_add_combine(
                xi,
                (pow2(k as nat) * rv) as int % q,
                xi,
                (pow2(k as nat) * rv) as int,
                q,
            );
        }
        r.push(masked);
        i = i + 1;
    }
    r
}

/// A vector of elements whose values match a ghost integer sequence has
/// the matching sum.
pub proof fn lemma_sum_vals_matches(c: Seq<RingElement>, s: Seq<int>)
    requires
        c.len() == s.len(),
        forall|i: int| 0 <= i < c.len() ==> (#[trigger] c[i]).val() as int == s[i],
    ensures
        sum_vals(c) == crate::sharing::int_sum(s),
    decreases c.len(),
{
    if c.len() > 0 {
        lemma_sum_vals_matches(c.drop_last(), s.drop_last());
    }
}

/// chi-weighted combination of three ring elements.
fn mod_dot3(
    c0: RingElement,
    v0: RingElement,
    c1: RingElement,
    v1: RingElement,
    c2: RingElement,
    v2: RingElement,
    ks: usize,
) -> (r: RingElement)
    requires
        ks <= 192,
    ensures
        r.val() as int == mod_dot3_spec(
            c0.val() as int,
            v0.val() as int,
            c1.val() as int,
            v1.val() as int,
            c2.val() as int,
            v2.val() as int,
            ks as nat,
        ),
{
    let t0 = c0.mul_mod(v0, ks);
    let t1 = c1.mul_mod(v1, ks);
    let t2 = c2.mul_mod(v2, ks);
    let ghost q = pow2(ks as nat) as int;
    proof {
        lemma_pow2_pos(ks as nat);
        lemma_mod_twice((c0.val() * v0.val()) as int, q);
        lemma_mod_twice((c1.val() * v1.val()) as int, q);
        lemma_mod_twice((c2.val() * v2.val()) as int, q);
        lemma_mod_twice(
            ((c0.val() * v0.val()) as int % q + (c1.val() * v1.val()) as int % q) as int,
            q,
        );
    }
    t0.add_mod(t1, ks).add_mod(t2, ks)
}

/// Decompose a value below 2^l in base B and pad the digit vector with
/// zeros to exactly d digits.
pub fn padded_digits(params: &PublicParameters, value: &RingElement) -> (digits: Vec<u64>)
    requires
        params.wf(),
        value.val() < pow2(params.l as nat),
    ensures
        Party::is_padded_digits(digits@, value.val() as int, params.big_b as int, params.d as int),
{
    let d = params.d;
    proof {
        vstd::arithmetic::power2::lemma2_to64();
        vstd::arithmetic::power2::lemma_pow2_strictly_increases(0, params.b as nat);
    }
    let decomposition = BaseDecomposition { base: params.big_b };
    let raw = decomposition.decompose(value);
    proof {
        // at most d digits are needed: B^d covers 2^l
        if raw@.len() > d {
            crate::decomposition::lemma_digits_lower_bound(raw@, params.big_b as int);
            lemma_pow2(params.b as nat);
            lemma_pow_multiplies(2, params.b as nat, d as nat);
            lemma_pow2((params.b * d) as nat);
            if params.l < params.b * d {
                vstd::arithmetic::power2::lemma_pow2_strictly_increases(
                    params.l as nat,
                    (params.b * d) as nat,
                );
            }
            vstd::arithmetic::power::lemma_pow_increases(
                params.big_b as nat,
                d as nat,
                (raw@.len() - 1) as nat,
            );
        }
    }
    let mut digits: Vec<u64> = Vec::new();
    let mut j: usize = 0;
    while j < d
        invariant
            j <= d,
            raw@.len() <= d,
            digits_val(raw@, params.big_b as int) == value.val(),
            forall|j2: int| 0 <= j2 < raw@.len() ==> (#[trigger] raw@[j2]) < params.big_b,
            params.big_b >= 2,
            digits@.len() == j,
            forall|j2: int| 0 <= j2 < digits@.len() ==> (#[trigger] digits@[j2]) == (if j2
                < raw@.len() {
                raw@[j2]
            } else {
                0u64
            }),
            forall|j2: int| 0 <= j2 < digits@.len() ==> (#[trigger] digits@[j2]) < params.big_b,
        decreases d - j,
    {
        if j < raw.len() {
            digits.push(raw[j]);
        } else {
            digits.push(0u64);
        }
        j = j + 1;
    }
    proof {
        assert(digits@.take(raw@.len() as int) =~= raw@);
        lemma_zero_pad_keeps_value(digits@, raw@, params.big_b as int);
    }
    digits
}

/// Padding a digit vector with zeros on the high end keeps its value.
proof fn lemma_zero_pad_keeps_value(padded: Seq<u64>, raw: Seq<u64>, base: int)
    requires
        raw.len() <= padded.len(),
        padded.take(raw.len() as int) =~= raw,
        forall|j: int| raw.len() <= j < padded.len() ==> (#[trigger] padded[j]) == 0,
    ensures
        digits_val(padded, base) == digits_val(raw, base),
    decreases padded.len(),
{
    if padded.len() > raw.len() {
        assert(padded.last() == 0);
        assert(padded.drop_last().take(raw.len() as int) =~= raw);
        lemma_zero_pad_keeps_value(padded.drop_last(), raw, base);
        assert(0 * pow(base, (padded.len() - 1) as nat) == 0) by (nonlinear_arith);
    } else {
        assert(padded =~= raw);
    }
}

} // verus!
