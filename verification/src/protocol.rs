//! The single-process reference orchestrator: it holds all parties and
//! drives the five rounds synchronously, revealing at each barrier.

use vstd::prelude::*;

verus! {

use vstd::arithmetic::power2::{pow2, lemma_pow2_pos};
use vstd::arithmetic::div_mod::lemma_small_mod;
use crate::ring::{RingElement, SignedElement};
use crate::sharing::{AdditiveSecretSharing, reveal_val, sum_vals, is_sharing_of};
use crate::params::PublicParameters;
use crate::party::Party;
use crate::preprocessing::Preprocessing;
use crate::gates::{LessThanZeroFunction, ProcessingFunction};

/// The reference protocol: all parties in one process.
#[derive(Debug, Clone)]
pub struct Protocol {
    pub parties: Vec<Party>,
    pub params: PublicParameters,
}

impl Protocol {
    /// Parties indexed by their number, all sharing the same parameters.
    pub open spec fn wf(self) -> bool {
        &&& self.params.wf()
        &&& self.parties@.len() == self.params.n
        &&& (forall|i: int| 0 <= i < self.parties@.len() ==> (#[trigger] self.parties@[i]).params
            == self.params)
        &&& (forall|i: int| 0 <= i < self.parties@.len() ==> (
        #[trigger] self.parties@[i]).party_number == i)
    }

    /// Preprocessing handed each party its share of s and r and its table
    /// columns, in the shapes the rounds need.
    pub open spec fn preprocessed(self) -> bool {
        forall|i: int| 0 <= i < self.parties@.len() ==> {
            let p = #[trigger] self.parties@[i];
            &&& p.s.is_some()
            &&& p.r.is_some()
            &&& p.ltz.is_some()
            &&& p.ltz.unwrap()@.len() == self.params.big_d
            &&& p.signs.is_some()
            &&& p.signs.unwrap()@.len() == self.params.big_b
            &&& (forall|v: int| 0 <= v < p.signs.unwrap()@.len() ==> (
            #[trigger] p.signs.unwrap()@[v])@.len() == self.params.d)
        }
    }

    /// Every party holds a share of the key, all of one length.
    pub open spec fn key_shared(self, dim: int) -> bool {
        forall|i: int| 0 <= i < self.parties@.len() ==> {
            let p = #[trigger] self.parties@[i];
            &&& p.sk.is_some()
            &&& p.sk.unwrap()@.len() == dim
        }
    }

    pub fn new(params: &PublicParameters) -> (r: Protocol)
        requires
            params.wf(),
        ensures
            r.wf(),
            r.params == params,
            forall|i: int| 0 <= i < r.parties@.len() ==> {
                let p = #[trigger] r.parties@[i];
                p.s.is_none() && p.r.is_none() && p.z.is_none() && p.sk.is_none()
                    && p.mac_alpha.is_none()
            },
    {
        let mut parties: Vec<Party> = Vec::new();
        let mut i: usize = 0;
        while i < params.n
            invariant
                i <= params.n,
                parties@.len() == i,
                forall|i2: int| 0 <= i2 < parties@.len() ==> (#[trigger] parties@[i2]).params
                    == params,
                forall|i2: int| 0 <= i2 < parties@.len() ==> (
                #[trigger] parties@[i2]).party_number == i2,
                forall|i2: int| 0 <= i2 < parties@.len() ==> {
                    let p = #[trigger] parties@[i2];
                    p.s.is_none() && p.r.is_none() && p.z.is_none() && p.sk.is_none()
                        && p.mac_alpha.is_none()
                },
            decreases params.n - i,
        {
            parties.push(Party::new(i, params));
            i = i + 1;
        }
        Protocol { params: *params, parties }
    }

    /// Run the dealer: every party receives shares of s and r and its
    /// columns of the sign and less-than-zero tables.  The handed-out s
    /// and r shares sum back to the dealer secrets, and summing the
    /// parties' LTZ table entries at any index reconstructs the
    /// less-than-zero function of s at that index.
    pub fn preprocess(&mut self, s: RingElement, r: RingElement)
        requires
            old(self).wf(),
            r.val() < pow2(old(self).params.l as nat),
        ensures
            final(self).wf(),
            final(self).params == old(self).params,
            final(self).preprocessed(),
            final(self).parties@.len() == old(self).parties@.len(),
            forall|i: int| 0 <= i < final(self).parties@.len() ==> final(self).parties@[i] == (Party {
                s: final(self).parties@[i].s,
                r: final(self).parties@[i].r,
                ltz: final(self).parties@[i].ltz,
                signs: final(self).parties@[i].signs,
                ..(#[trigger] old(self).parties@[i])
            }),
            sum_vals(
                Seq::new(
                    final(self).parties@.len() as nat,
                    |i: int| final(self).parties@[i].s.unwrap(),
                ),
            ) % (pow2((old(self).params.d + 1) as nat) as int) == s.val() as int % (pow2(
                (old(self).params.d + 1) as nat,
            ) as int),
            sum_vals(
                Seq::new(
                    final(self).parties@.len() as nat,
                    |i: int| final(self).parties@[i].r.unwrap(),
                ),
            ) % (pow2(old(self).params.k as nat) as int) == r.val() as int % (pow2(
                old(self).params.k as nat,
            ) as int),
            forall|v: int| 0 <= v < old(self).params.big_d ==> sum_vals(
                Seq::new(
                    final(self).parties@.len() as nat,
                    |i: int| final(self).parties@[i].ltz.unwrap()@[v],
                ),
            ) % (pow2(old(self).params.m as nat) as int) == (#[trigger] (LessThanZeroFunction {
                modulo_exponent: (old(self).params.d + 1) as usize,
            }).spec_apply(v, s.val() as int)) % (pow2(old(self).params.m as nat) as int),
            exists|rdigits: Seq<u64>|
                Party::is_padded_digits(
                    rdigits,
                    r.val() as int,
                    old(self).params.big_b as int,
                    old(self).params.d as int,
                ) && (forall|j: int, v: int|
                    0 <= j < old(self).params.d && 0 <= v < old(self).params.big_b ==> sum_vals(
                        Seq::new(
                            final(self).parties@.len() as nat,
                            |i: int| final(self).parties@[i].signs.unwrap()@[v]@[j],
                        ),
                    ) % (pow2((old(self).params.d + 1) as nat) as int) == (#[trigger] (
                    crate::gates::SignFunction).spec_apply(v, rdigits[j] as int)) % (pow2(
                        (old(self).params.d + 1) as nat,
                    ) as int)),
    {
        let dealer = Preprocessing::new(&self.params);
        // the dealer only builds tables; the key is shared separately
        let bundles = dealer.run(s, r, Vec::new());
        let n = self.params.n;
        let mut i: usize = 0;
        while i < n
            invariant
                i <= n,
                old(self).wf(),
                n == old(self).params.n,
                self.params == old(self).params,
                self.parties@.len() == old(self).parties@.len(),
                bundles@.len() == n,
                forall|i2: int| 0 <= i2 < bundles@.len() ==> (#[trigger] bundles@[i2]).wf(
                    old(self).params,
                    0,
                ),
                forall|i2: int| i <= i2 < self.parties@.len() ==> #[trigger] self.parties@[i2]
                    == old(self).parties@[i2],
                forall|i2: int| 0 <= i2 < i ==> {
                    let p = #[trigger] self.parties@[i2];
                    &&& p == (Party {
                        s: p.s,
                        r: p.r,
                        ltz: p.ltz,
                        signs: p.signs,
                        ..old(self).parties@[i2]
                    })
                    &&& p.s == Some(bundles@[i2].s)
                    &&& p.r == Some(bundles@[i2].r)
                    &&& p.ltz.is_some()
                    &&& p.ltz.unwrap()@ == bundles@[i2].ltz@
                    &&& p.ltz.unwrap()@.len() == old(self).params.big_d
                    &&& p.signs.is_some()
                    &&& p.signs.unwrap()@.len() == old(self).params.big_b
                    &&& (forall|v: int| 0 <= v < p.signs.unwrap()@.len() ==> (
                    #[trigger] p.signs.unwrap()@[v])@.len() == old(self).params.d)
                    &&& (forall|v: int| 0 <= v < p.signs.unwrap()@.len() ==> (
                    #[trigger] p.signs.unwrap()@[v])@ == bundles@[i2].signs@[v]@)
                },
            decreases n - i,
        {
            let bundle = &bundles[i];
            let mut p = self.parties.remove(i);
            p.set_s(bundle.s);
            p.set_r(bundle.r);
            p.set_ltz(copy_vec(&bundle.ltz));
            p.set_signs(crate::preprocessing::copy_matrix(&bundle.signs));
            self.parties.insert(i, p);
            i = i + 1;
        }
        proof {
            assert(Seq::new(self.parties@.len() as nat, |i: int| self.parties@[i].s.unwrap())
                =~= Seq::new(bundles@.len() as nat, |i: int| bundles@[i].s));
            assert(Seq::new(self.parties@.len() as nat, |i: int| self.parties@[i].r.unwrap())
                =~= Seq::new(bundles@.len() as nat, |i: int| bundles@[i].r));
            assert forall|v: int| 0 <= v < old(self).params.big_d implies sum_vals(
                Seq::new(
                    self.parties@.len() as nat,
                    |i: int| self.parties@[i].ltz.unwrap()@[v],
                ),
            ) % (pow2(old(self).params.m as nat) as int) == (#[trigger] (LessThanZeroFunction {
                modulo_exponent: (old(self).params.d + 1) as usize,
            }).spec_apply(v, s.val() as int)) % (pow2(old(self).params.m as nat) as int) by {
                assert(Seq::new(
                    self.parties@.len() as nat,
                    |i: int| self.parties@[i].ltz.unwrap()@[v],
                ) =~= Seq::new(bundles@.len() as nat, |i: int| bundles@[i].ltz@[v]));
            }
            let rdigits = choose|rdigits: Seq<u64>|
                Party::is_padded_digits(
                    rdigits,
                    r.val() as int,
                    old(self).params.big_b as int,
                    old(self).params.d as int,
                ) && (forall|j: int, v: int|
                    0 <= j < old(self).params.d && 0 <= v < old(self).params.big_b ==> sum_vals(
                        Seq::new(bundles@.len(), |i: int| bundles@[i].signs@[v]@[j]),
                    ) % (pow2((old(self).params.d + 1) as nat) as int) == (#[trigger] (
                    crate::gates::SignFunction).spec_apply(v, rdigits[j] as int)) % (pow2(
                        (old(self).params.d + 1) as nat,
                    ) as int));
            assert(Party::is_padded_digits(
                rdigits,
                r.val() as int,
                old(self).params.big_b as int,
                old(self).params.d as int,
            ));
            assert forall|j: int, v: int|
                0 <= j < old(self).params.d && 0 <= v < old(self).params.big_b implies sum_vals(
                Seq::new(
                    self.parties@.len() as nat,
                    |i: int| self.parties@[i].signs.unwrap()@[v]@[j],
                ),
            ) % (pow2((old(self).params.d + 1) as nat) as int) == ((
            crate::gates::SignFunction).spec_apply(v, rdigits[j] as int)) % (pow2(
                (old(self).params.d + 1) as nat,
            ) as int) by {
                assert(Seq::new(
                    self.parties@.len() as nat,
                    |i: int| self.parties@[i].signs.unwrap()@[v]@[j],
                ) =~= Seq::new(bundles@.len(), |i: int| bundles@[i].signs@[v]@[j]));
            }
        }
    }

    /// Share every entry of the LWE secret key among the parties.
    /// Each key entry is additively shared in the ciphertext ring: for
    /// every position, the parties' shares sum back to that entry.
    pub fn share_sk(&mut self, sk: Vec<RingElement>)
        requires
            old(self).wf(),
        ensures
            final(self).wf(),
            final(self).params == old(self).params,
            final(self).key_shared(sk@.len() as int),
            final(self).parties@.len() == old(self).parties@.len(),
            forall|i: int| 0 <= i < final(self).parties@.len() ==> final(self).parties@[i] == (Party {
                sk: final(self).parties@[i].sk,
                ..(#[trigger] old(self).parties@[i])
            }),
            forall|j: int| 0 <= j < sk@.len() ==> sum_vals(
                Seq::new(
                    final(self).parties@.len() as nat,
                    |i: int| final(self).parties@[i].sk.unwrap()@[j],
                ),
            ) % (pow2(old(self).params.k as nat) as int) == (#[trigger] sk@[j]).val() as int % (
            pow2(old(self).params.k as nat) as int),
    {
        let n = self.params.n;
        let k = self.params.k;
        let mut sk_shares: Vec<Vec<RingElement>> = Vec::new();
        let mut j: usize = 0;
        while j < sk.len()
            invariant
                j <= sk@.len(),
                old(self).wf(),
                n == old(self).params.n,
                k == old(self).params.k,
                sk_shares@.len() == j,
                forall|j2: int| 0 <= j2 < sk_shares@.len() ==> is_sharing_of(
                    (#[trigger] sk_shares@[j2])@,
                    sk@[j2].val() as int,
                    n as int,
                    k as nat,
                ),
            decreases sk@.len() - j,
        {
            sk_shares.push(
                AdditiveSecretSharing::share(&SignedElement::from_element(sk[j]), n, k),
            );
            j = j + 1;
        }
        let mut i: usize = 0;
        while i < n
            invariant
                i <= n,
                old(self).wf(),
                n == old(self).params.n,
                self.params == old(self).params,
                self.parties@.len() == old(self).parties@.len(),
                k == old(self).params.k,
                sk_shares@.len() == sk@.len(),
                forall|j2: int| 0 <= j2 < sk_shares@.len() ==> is_sharing_of(
                    (#[trigger] sk_shares@[j2])@,
                    sk@[j2].val() as int,
                    n as int,
                    k as nat,
                ),
                forall|i2: int| i <= i2 < self.parties@.len() ==> #[trigger] self.parties@[i2]
                    == old(self).parties@[i2],
                forall|i2: int| 0 <= i2 < i ==> {
                    let p = #[trigger] self.parties@[i2];
                    &&& p == (Party { sk: p.sk, ..old(self).parties@[i2] })
                    &&& p.sk.is_some()
                    &&& p.sk.unwrap()@.len() == sk@.len()
                },
                forall|i2: int, j2: int|
                    0 <= i2 < i && 0 <= j2 < sk@.len() ==> (#[trigger] self.parties@[
                    i2].sk.unwrap()@[j2]) == sk_shares@[j2]@[i2],
            decreases n - i,
        {
            let mut party_sk: Vec<RingElement> = Vec::new();
            let mut j2: usize = 0;
            while j2 < sk_shares.len()
                invariant
                    j2 <= sk_shares@.len(),
                    i < n,
                    n >= 1,
                    k <= 192,
                    forall|j3: int| 0 <= j3 < sk_shares@.len() ==> is_sharing_of(
                        (#[trigger] sk_shares@[j3])@,
                        sk@[j3].val() as int,
                        n as int,
                        k as nat,
                    ),
                    party_sk@.len() == j2,
                    forall|j3: int| 0 <= j3 < j2 ==> (#[trigger] party_sk@[j3]) == sk_shares@[
                    j3]@[i as int],
                decreases sk_shares@.len() - j2,
            {
                party_sk.push(sk_shares[j2][i]);
                j2 = j2 + 1;
            }
            let mut p = self.parties.remove(i);
            p.set_sk(party_sk);
            self.parties.insert(i, p);
            i = i + 1;
        }
        proof {
            assert forall|j: int| 0 <= j < sk@.len() implies sum_vals(
                Seq::new(self.parties@.len() as nat, |i: int| self.parties@[i].sk.unwrap()@[j]),
            ) % (pow2(old(self).params.k as nat) as int) == (#[trigger] sk@[j]).val() as int % (
            pow2(old(self).params.k as nat) as int) by {
                assert(Seq::new(
                    self.parties@.len() as nat,
                    |i: int| self.parties@[i].sk.unwrap()@[j],
                ) =~= sk_shares@[j]@);
            }
        }
    }
}

/// The z' shares every party currently stores, as a sequence.
pub open spec fn z_prime_fields(parties: Seq<Party>) -> Seq<RingElement> {
    Seq::new(parties.len(), |i: int| parties[i].z_prime.unwrap())
}

/// The y' shares every party currently stores, as a sequence.
pub open spec fn y_prime_fields(parties: Seq<Party>) -> Seq<RingElement> {
    Seq::new(parties.len(), |i: int| parties[i].y_prime.unwrap())
}

impl Protocol {
    /// Every party can run the masked-noise rounds: preprocessing done
    /// and a z share in place.
    pub open spec fn rounds_ready(self) -> bool {
        &&& self.wf()
        &&& self.preprocessed()
        &&& (forall|i: int| 0 <= i < self.parties@.len() ==> (#[trigger] self.parties@[
        i]).z.is_some())
    }

    /// The weighted-signs round: decompose the public z' and let every
    /// party pick and combine its sign-table shares.
    pub fn weighted_signs_protocol(&self, z_prime: &RingElement) -> (y_shares: Vec<RingElement>)
        requires
            self.wf(),
            self.preprocessed(),
            z_prime.val() < pow2(self.params.l as nat),
        ensures
            y_shares@.len() == self.params.n,
            exists|digits: Seq<u64>|
                Party::is_padded_digits(
                    digits,
                    z_prime.val() as int,
                    self.params.big_b as int,
                    self.params.d as int,
                ) && (forall|i: int|
                    0 <= i < y_shares@.len() ==> (#[trigger] y_shares@[i]).val() as int
                        == crate::party::weighted_signs_prefix(
                        crate::mac::mat_rows(self.parties@[i].signs.unwrap()@),
                        digits,
                        self.params.d as int,
                        pow2((self.params.d + 1) as nat) as int,
                    )),
    {
        let digits = crate::party::padded_digits(&self.params, z_prime);
        let mut y_shares: Vec<RingElement> = Vec::new();
        let mut i: usize = 0;
        while i < self.parties.len()
            invariant
                i <= self.parties@.len(),
                self.wf(),
                self.preprocessed(),
                Party::is_padded_digits(
                    digits@,
                    z_prime.val() as int,
                    self.params.big_b as int,
                    self.params.d as int,
                ),
                y_shares@.len() == i,
                forall|i2: int|
                    0 <= i2 < i ==> (#[trigger] y_shares@[i2]).val() as int
                        == crate::party::weighted_signs_prefix(
                        crate::mac::mat_rows(self.parties@[i2].signs.unwrap()@),
                        digits@,
                        self.params.d as int,
                        pow2((self.params.d + 1) as nat) as int,
                    ),
            decreases self.parties@.len() - i,
        {
            y_shares.push(self.parties[i].calc_weighted_sum(&digits));
            i = i + 1;
        }
        y_shares
    }

    /// The less-than-zero round: mask the y shares with the s shares,
    /// reveal y', and let every party pick its LTZ table entry.
    pub fn ltz_protocol(&mut self, y_shares: Vec<RingElement>) -> (u_shares: Vec<RingElement>)
        requires
            old(self).wf(),
            old(self).preprocessed(),
            y_shares@.len() == old(self).params.n,
        ensures
            final(self).wf(),
            final(self).preprocessed(),
            final(self).params == old(self).params,
            final(self).parties@.len() == old(self).parties@.len(),
            u_shares@.len() == old(self).params.n,
            forall|i: int| 0 <= i < final(self).parties@.len() ==> final(self).parties@[i] == (Party {
                y: final(self).parties@[i].y,
                y_prime: final(self).parties@[i].y_prime,
                ..(#[trigger] old(self).parties@[i])
            }),
            forall|i: int| 0 <= i < final(self).parties@.len() ==> (#[trigger] final(self).parties@[i]).y == Some(y_shares@[i]),
            forall|i: int| 0 <= i < final(self).parties@.len() ==> (#[trigger] final(self).parties@[i]).y_prime.is_some() && final(self).parties@[i].y_prime.unwrap().val() as int
                == (y_shares@[i].val() + old(self).parties@[i].s.unwrap().val()) as int % (pow2(
                (old(self).params.d + 1) as nat,
            ) as int),
            forall|i: int| 0 <= i < u_shares@.len() ==> (#[trigger] u_shares@[i]) == old(self).parties@[i].ltz.unwrap()@[reveal_val(
                y_prime_fields(final(self).parties@),
                (old(self).params.d + 1) as nat,
            )],
    {
        let n = self.params.n;
        let de = self.params.d + 1;
        let mut y_prime_shares: Vec<RingElement> = Vec::new();
        let mut i: usize = 0;
        while i < n
            invariant
                i <= n,
                old(self).wf(),
                old(self).preprocessed(),
                n == old(self).params.n,
                self.params == old(self).params,
                de == old(self).params.d + 1,
                de <= 192,
                self.parties@.len() == old(self).parties@.len(),
                y_shares@.len() == n,
                y_prime_shares@.len() == i,
                forall|i2: int| i <= i2 < self.parties@.len() ==> #[trigger] self.parties@[i2]
                    == old(self).parties@[i2],
                forall|i2: int| 0 <= i2 < i ==> #[trigger] self.parties@[i2] == (Party {
                    y: self.parties@[i2].y,
                    y_prime: self.parties@[i2].y_prime,
                    ..old(self).parties@[i2]
                }),
                forall|i2: int| 0 <= i2 < i ==> (#[trigger] self.parties@[i2]).y == Some(
                    y_shares@[i2],
                ) && self.parties@[i2].y_prime.is_some()
                    && self.parties@[i2].y_prime.unwrap().val() as int == (y_shares@[i2].val()
                    + old(self).parties@[i2].s.unwrap().val()) as int % (pow2(de as nat) as int)
                    && y_prime_shares@[i2] == self.parties@[i2].y_prime.unwrap(),
            decreases n - i,
        {
            let mut p = self.parties.remove(i);
            let y = y_shares[i];
            let y_prime = y.add_mod(p.s.unwrap(), de);
            p.y = Some(y);
            p.y_prime = Some(y_prime);
            y_prime_shares.push(y_prime);
            self.parties.insert(i, p);
            i = i + 1;
        }
        let ghost mid = self.parties@;
        let y_prime = AdditiveSecretSharing::reveal_shares(&y_prime_shares, de);
        proof {
            vstd::arithmetic::power2::lemma2_to64();
            if de < 31 {
                vstd::arithmetic::power2::lemma_pow2_strictly_increases(de as nat, 31);
            }
            assert(y_prime_shares@ =~= y_prime_fields(mid));
        }
        let idx = y_prime.as_u64() as usize;
        let mut u_shares: Vec<RingElement> = Vec::new();
        let mut i2: usize = 0;
        while i2 < n
            invariant
                i2 <= n,
                self.wf(),
                self.preprocessed(),
                n == self.params.n,
                idx < self.params.big_d,
                u_shares@.len() == i2,
                self.parties@ == mid,
                mid.len() == n,
                idx as int == reveal_val(y_prime_fields(mid), de as nat),
                de == self.params.d + 1,
                forall|i3: int| 0 <= i3 < n ==> (#[trigger] self.parties@[i3]).ltz == old(self).parties@[i3].ltz,
                forall|i3: int| 0 <= i3 < i2 ==> (#[trigger] u_shares@[i3]) == old(self).parties@[i3].ltz.unwrap()@[idx as int],
            decreases n - i2,
        {
            u_shares.push(self.parties[i2].ltz.as_ref().unwrap()[idx]);
            i2 = i2 + 1;
        }
        u_shares
    }

    /// The comparison round: weighted signs followed by the LTZ lookup;
    /// the result shares land in each party's u field.
    pub fn lt_r_l_protocol(&mut self, z_prime: &RingElement) -> (u_shares: Vec<RingElement>)
        requires
            old(self).wf(),
            old(self).preprocessed(),
            z_prime.val() < pow2(old(self).params.l as nat),
        ensures
            final(self).wf(),
            final(self).preprocessed(),
            final(self).params == old(self).params,
            final(self).parties@.len() == old(self).parties@.len(),
            u_shares@.len() == old(self).params.n,
            forall|i: int| 0 <= i < final(self).parties@.len() ==> {
                let p = final(self).parties@[i];
                &&& p == (Party {
                    y: p.y,
                    y_prime: p.y_prime,
                    u: p.u,
                    ..(#[trigger] old(self).parties@[i])
                })
                &&& p.y.is_some()
                &&& p.y_prime.is_some()
                &&& p.y_prime.unwrap().val() as int == (p.y.unwrap().val()
                    + old(self).parties@[i].s.unwrap().val()) as int % (pow2(
                    (old(self).params.d + 1) as nat,
                ) as int)
                &&& p.u == Some(u_shares@[i])
            },
            exists|digits: Seq<u64>|
                Party::is_padded_digits(
                    digits,
                    z_prime.val() as int,
                    old(self).params.big_b as int,
                    old(self).params.d as int,
                ) && (forall|i: int|
                    0 <= i < final(self).parties@.len() ==> (#[trigger] final(self).parties@[i]).y.unwrap().val() as int == crate::party::weighted_signs_prefix(
                        crate::mac::mat_rows(old(self).parties@[i].signs.unwrap()@),
                        digits,
                        old(self).params.d as int,
                        pow2((old(self).params.d + 1) as nat) as int,
                    )),
            forall|i: int| 0 <= i < u_shares@.len() ==> (#[trigger] u_shares@[i]) == old(self).parties@[i].ltz.unwrap()@[reveal_val(
                y_prime_fields(final(self).parties@),
                (old(self).params.d + 1) as nat,
            )],
    {
        let y_shares = self.weighted_signs_protocol(z_prime);
        let ghost pre = self.parties@;
        let u_shares = self.ltz_protocol(y_shares);
        let ghost mid = self.parties@;
        proof {
            assert forall|i3: int| 0 <= i3 < mid.len() implies (#[trigger] mid[i3]) == (Party {
                y: mid[i3].y,
                y_prime: mid[i3].y_prime,
                ..old(self).parties@[i3]
            }) by {
                assert(pre[i3] == old(self).parties@[i3]);
            }
        }
        let n = self.params.n;
        let mut i: usize = 0;
        while i < n
            invariant
                i <= n,
                n == self.params.n,
                self.params == old(self).params,
                self.params.wf(),
                self.parties@.len() == n,
                u_shares@.len() == n,
                forall|i2: int| 0 <= i2 < self.parties@.len() ==> (#[trigger] self.parties@[
                i2]).params == self.params,
                forall|i2: int| 0 <= i2 < self.parties@.len() ==> (#[trigger] self.parties@[
                i2]).party_number == i2,
                self.preprocessed(),
                mid.len() == n,
                forall|i2: int| i <= i2 < self.parties@.len() ==> #[trigger] self.parties@[i2]
                    == mid[i2],
                forall|i2: int| 0 <= i2 < i ==> #[trigger] self.parties@[i2] == (Party {
                    u: self.parties@[i2].u,
                    ..mid[i2]
                }) && self.parties@[i2].u == Some(u_shares@[i2]),
                forall|i2: int| 0 <= i2 < n ==> (#[trigger] self.parties@[i2]).y_prime
                    == mid[i2].y_prime,
            decreases n - i,
        {
            let mut p = self.parties.remove(i);
            p.u = Some(u_shares[i]);
            self.parties.insert(i, p);
            i = i + 1;
        }
        proof {
            assert(y_prime_fields(self.parties@) =~= y_prime_fields(mid));
        }
        u_shares
    }

    /// The full noise-removal subprotocol: reveal z' = z + r mod L, run
    /// the comparison, and form each party's share of e = z' - r + L*u.
    #[verifier::rlimit(80)]
    pub fn mod_l_protocol(&mut self)
        requires
            old(self).rounds_ready(),
        ensures
            final(self).wf(),
            final(self).params == old(self).params,
            final(self).parties@.len() == old(self).parties@.len(),
            forall|i: int| 0 <= i < final(self).parties@.len() ==> {
                let p = #[trigger] final(self).parties@[i];
                let prior = old(self).parties@[i];
                &&& p == (Party {
                    z_prime: p.z_prime,
                    y: p.y,
                    y_prime: p.y_prime,
                    u: p.u,
                    e: p.e,
                    ..prior
                })
                &&& p.z_prime.is_some()
                &&& p.y.is_some()
                &&& p.y_prime.is_some()
                &&& p.u.is_some()
                &&& p.e.is_some()
                &&& p.z_prime.unwrap().val() as int == (prior.z.unwrap().val()
                    + prior.r.unwrap().val()) as int % (pow2(old(self).params.l as nat) as int)
                &&& p.y_prime.unwrap().val() as int == (p.y.unwrap().val()
                    + prior.s.unwrap().val()) as int % (pow2(
                    (old(self).params.d + 1) as nat,
                ) as int)
                &&& p.u == Some(
                    prior.ltz.unwrap()@[reveal_val(
                        y_prime_fields(final(self).parties@),
                        (old(self).params.d + 1) as nat,
                    )],
                )
                &&& p.e.unwrap().val() as int == ((if i == 0 {
                    reveal_val(z_prime_fields(final(self).parties@), old(self).params.l as nat)
                } else {
                    0int
                }) - prior.r.unwrap().val() + pow2(old(self).params.l as nat)
                    * p.u.unwrap().val()) % (pow2(old(self).params.k as nat) as int)
            },
            exists|digits: Seq<u64>|
                Party::is_padded_digits(
                    digits,
                    reveal_val(z_prime_fields(final(self).parties@), old(self).params.l as nat),
                    old(self).params.big_b as int,
                    old(self).params.d as int,
                ) && (forall|i: int|
                    0 <= i < final(self).parties@.len() ==> (#[trigger] final(self).parties@[i]).y.unwrap().val() as int == crate::party::weighted_signs_prefix(
                        crate::mac::mat_rows(old(self).parties@[i].signs.unwrap()@),
                        digits,
                        old(self).params.d as int,
                        pow2((old(self).params.d + 1) as nat) as int,
                    )),
    {
        let n = self.params.n;
        let l = self.params.l;
        let k = self.params.k;
        let ghost q = pow2(k as nat) as int;
        proof {
            lemma_pow2_pos(k as nat);
        }
        // z' = [z] + [r], low l bits
        let mut z_prime_shares: Vec<RingElement> = Vec::new();
        let mut i: usize = 0;
        while i < n
            invariant
                i <= n,
                old(self).rounds_ready(),
                n == old(self).params.n,
                l == old(self).params.l,
                self.params == old(self).params,
                self.parties@.len() == old(self).parties@.len(),
                z_prime_shares@.len() == i,
                forall|i2: int| i <= i2 < self.parties@.len() ==> #[trigger] self.parties@[i2]
                    == old(self).parties@[i2],
                forall|i2: int| 0 <= i2 < i ==> #[trigger] self.parties@[i2] == (Party {
                    z_prime: self.parties@[i2].z_prime,
                    ..old(self).parties@[i2]
                }) && self.parties@[i2].z_prime.is_some()
                    && self.parties@[i2].z_prime.unwrap().val() as int == (old(self).parties@[i2].z.unwrap().val() + old(self).parties@[i2].r.unwrap().val()) as int
                    % (pow2(l as nat) as int) && z_prime_shares@[i2]
                    == self.parties@[i2].z_prime.unwrap(),
            decreases n - i,
        {
            let mut p = self.parties.remove(i);
            let z_prime = p.z.unwrap().add_mod(p.r.unwrap(), l);
            p.z_prime = Some(z_prime);
            z_prime_shares.push(z_prime);
            self.parties.insert(i, p);
            i = i + 1;
        }
        let ghost stage1 = self.parties@;
        let z_prime = AdditiveSecretSharing::reveal_shares(&z_prime_shares, l);
        proof {
            assert(z_prime_shares@ =~= z_prime_fields(stage1));
        }
        let _u_shares = self.lt_r_l_protocol(&z_prime);
        // e = z' (party 0) - [r] + L * [u]  (mod q)
        let ghost mid = self.parties@;
        proof {
            assert forall|i3: int| 0 <= i3 < mid.len() implies (#[trigger] mid[i3]).u.is_some()
                && mid[i3].z == old(self).parties@[i3].z && mid[i3].sk == old(self).parties@[i3].sk && mid[i3].mac_alpha == old(self).parties@[i3].mac_alpha
                && mid[i3].z_prime == stage1[i3].z_prime by {
                assert(stage1[i3] == (Party {
                    z_prime: stage1[i3].z_prime,
                    ..old(self).parties@[i3]
                }));
            }
            assert(z_prime_fields(mid) =~= z_prime_fields(stage1));
        }
        let mut i2: usize = 0;
        while i2 < n
            invariant
                i2 <= n,
                self.wf(),
                self.preprocessed(),
                self.params == old(self).params,
                n == self.params.n,
                l == self.params.l,
                k == self.params.k,
                q == pow2(k as nat) as int,
                q > 0,
                self.parties@.len() == n,
                mid.len() == n,
                z_prime.val() as int == reveal_val(z_prime_fields(mid), l as nat),
                forall|i3: int| i2 <= i3 < self.parties@.len() ==> (#[trigger] self.parties@[
                i3]).u.is_some() && self.parties@[i3] == mid[i3],
                forall|i3: int| 0 <= i3 < i2 ==> #[trigger] self.parties@[i3] == (Party {
                    e: self.parties@[i3].e,
                    ..mid[i3]
                }) && self.parties@[i3].e.is_some() && self.parties@[i3].e.unwrap().val() as int
                    == ((if i3 == 0 {
                    z_prime.val() as int
                } else {
                    0int
                }) - mid[i3].r.unwrap().val() + pow2(l as nat) * mid[i3].u.unwrap().val()) % q,
            decreases n - i2,
        {
            let mut p = self.parties.remove(i2);
            let base = if p.party_number == 0 {
                z_prime
            } else {
                RingElement::zero()
            };
            let lu = RingElement::pow2_elem(l).mul_mod(p.u.unwrap(), k);
            let e = base.sub_mod(p.r.unwrap(), k).add_mod(lu, k);
            proof {
                let bv = if i2 == 0 {
                    z_prime.val() as int
                } else {
                    0int
                };
                let rv = mid[i2 as int].r.unwrap().val() as int;
                let uv = mid[i2 as int].u.unwrap().val() as int;
                vstd::arithmetic::div_mod::lemma_mod_twice(bv - rv, q);
                vstd::arithmetic::div_mod::lemma_mod_twice((pow2(l as nat) * uv) as int, q);
                crate::ring::lemma_mod_add_combine(
                    (bv - rv) % q,
                    (pow2(l as nat) * uv) as int % q,
                    bv - rv,
                    (pow2(l as nat) * uv) as int,
                    q,
                );
            }
            p.e = Some(e);
            self.parties.insert(i2, p);
            i2 = i2 + 1;
        }
        proof {
            assert(z_prime_fields(self.parties@) =~= z_prime_fields(mid));
            assert(y_prime_fields(self.parties@) =~= y_prime_fields(mid));
            let digits = choose|digits: Seq<u64>|
                Party::is_padded_digits(
                    digits,
                    z_prime.val() as int,
                    old(self).params.big_b as int,
                    old(self).params.d as int,
                ) && (forall|i3: int|
                    0 <= i3 < mid.len() ==> (#[trigger] mid[i3]).y.unwrap().val() as int
                        == crate::party::weighted_signs_prefix(
                        crate::mac::mat_rows(stage1[i3].signs.unwrap()@),
                        digits,
                        old(self).params.d as int,
                        pow2((old(self).params.d + 1) as nat) as int,
                    ));
            assert(Party::is_padded_digits(
                digits,
                reveal_val(z_prime_fields(self.parties@), old(self).params.l as nat),
                old(self).params.big_b as int,
                old(self).params.d as int,
            ) && (forall|i3: int|
                0 <= i3 < self.parties@.len() ==> (#[trigger] self.parties@[
                i3]).y.unwrap().val() as int == crate::party::weighted_signs_prefix(
                    crate::mac::mat_rows(old(self).parties@[i3].signs.unwrap()@),
                    digits,
                    old(self).params.d as int,
                    pow2((old(self).params.d + 1) as nat) as int,
                )));
        }
    }

    /// Remove the masked noise from a shared value: reveal z - e.
    #[verifier::rlimit(80)]
    pub fn noisy_decrypt(&mut self, z: RingElement) -> (r: RingElement)
        requires
            old(self).wf(),
            old(self).preprocessed(),
        ensures
            final(self).wf(),
            final(self).params == old(self).params,
            final(self).parties@.len() == old(self).parties@.len(),
            forall|i: int| 0 <= i < final(self).parties@.len() ==> {
                let p = #[trigger] final(self).parties@[i];
                &&& p == (Party {
                    z: p.z,
                    z_prime: p.z_prime,
                    y: p.y,
                    y_prime: p.y_prime,
                    u: p.u,
                    e: p.e,
                    ..old(self).parties@[i]
                })
                &&& p.z.is_some()
                &&& p.z_prime.is_some()
                &&& p.u.is_some()
                &&& p.e.is_some()
                &&& p.z_prime.unwrap().val() as int == (p.z.unwrap().val()
                    + p.r.unwrap().val()) as int % (pow2(old(self).params.l as nat) as int)
                &&& p.e.unwrap().val() as int == ((if i == 0 {
                    reveal_val(z_prime_fields(final(self).parties@), old(self).params.l as nat)
                } else {
                    0int
                }) - p.r.unwrap().val() + pow2(old(self).params.l as nat) * p.u.unwrap().val()) % (
                pow2(old(self).params.k as nat) as int)
            },
            sum_vals(
                Seq::new(
                    final(self).parties@.len() as nat,
                    |i: int| final(self).parties@[i].z.unwrap(),
                ),
            ) % (pow2(old(self).params.k as nat) as int) == z.val() as int % (pow2(
                old(self).params.k as nat,
            ) as int),
            r.val() as int == crate::sharing::int_sum(
                Seq::new(
                    final(self).parties@.len() as nat,
                    |i: int|
                        (final(self).parties@[i].z.unwrap().val() - final(self).parties@[i].e.unwrap().val()) % (pow2(old(self).params.k as nat) as int),
                ),
            ) % (pow2(old(self).params.k as nat) as int),
            r.val() < pow2(old(self).params.k as nat),
    {
        let n = self.params.n;
        let k = self.params.k;
        let z_shares = AdditiveSecretSharing::share(&SignedElement::from_element(z), n, k);
        let mut i: usize = 0;
        while i < n
            invariant
                i <= n,
                old(self).wf(),
                old(self).preprocessed(),
                n == old(self).params.n,
                self.params == old(self).params,
                self.parties@.len() == old(self).parties@.len(),
                z_shares@.len() == n,
                forall|i2: int| i <= i2 < self.parties@.len() ==> #[trigger] self.parties@[i2]
                    == old(self).parties@[i2],
                forall|i2: int| 0 <= i2 < i ==> #[trigger] self.parties@[i2] == (Party {
                    z: self.parties@[i2].z,
                    ..old(self).parties@[i2]
                }) && self.parties@[i2].z == Some(z_shares@[i2]),
            decreases n - i,
        {
            let mut p = self.parties.remove(i);
            p.set_z(z_shares[i]);
            self.parties.insert(i, p);
            i = i + 1;
        }
        let ghost midz = self.parties@;
        self.mod_l_protocol();
        proof {
            assert forall|i3: int| 0 <= i3 < self.parties@.len() implies (
            #[trigger] self.parties@[i3]) == (Party {
                z: self.parties@[i3].z,
                z_prime: self.parties@[i3].z_prime,
                y: self.parties@[i3].y,
                y_prime: self.parties@[i3].y_prime,
                u: self.parties@[i3].u,
                e: self.parties@[i3].e,
                ..old(self).parties@[i3]
            }) && self.parties@[i3].z == Some(z_shares@[i3]) by {
                assert(midz[i3] == (Party { z: midz[i3].z, ..old(self).parties@[i3] }));
            }
            assert(Seq::new(self.parties@.len() as nat, |i: int| self.parties@[i].z.unwrap())
                =~= z_shares@);
        }
        let mut o_shares: Vec<RingElement> = Vec::new();
        let mut i2: usize = 0;
        let ghost q = pow2(k as nat) as int;
        while i2 < n
            invariant
                i2 <= n,
                self.wf(),
                n == self.params.n,
                k == self.params.k,
                q == pow2(k as nat) as int,
                self.parties@.len() == n,
                forall|i3: int| 0 <= i3 < self.parties@.len() ==> (#[trigger] self.parties@[
                i3]).e.is_some() && self.parties@[i3].z.is_some(),
                o_shares@.len() == i2,
                forall|i3: int| 0 <= i3 < i2 ==> (#[trigger] o_shares@[i3]).val() as int == (
                self.parties@[i3].z.unwrap().val() - self.parties@[i3].e.unwrap().val()) % q,
            decreases n - i2,
        {
            let p = &self.parties[i2];
            o_shares.push(p.z.unwrap().sub_mod(p.e.unwrap(), k));
            i2 = i2 + 1;
        }
        let result = AdditiveSecretSharing::reveal_shares(&o_shares, k);
        proof {
            crate::party::lemma_sum_vals_matches(
                o_shares@,
                Seq::new(
                    self.parties@.len() as nat,
                    |i: int|
                        (self.parties@[i].z.unwrap().val() - self.parties@[i].e.unwrap().val())
                            % q,
                ),
            );
        }
        result
    }

    /// Decrypt a ciphertext with the shared key: run the rounds, reveal
    /// o' = z - e, and round away the noise bits.
    #[verifier::rlimit(60)]
    pub fn decrypt(&mut self, a: Vec<RingElement>, b: RingElement) -> (msg: RingElement)
        requires
            old(self).wf(),
            old(self).preprocessed(),
            old(self).key_shared(a@.len() as int),
        ensures
            final(self).wf(),
            final(self).params == old(self).params,
            final(self).parties@.len() == old(self).parties@.len(),
            forall|i: int| 0 <= i < final(self).parties@.len() ==> {
                let p = #[trigger] final(self).parties@[i];
                &&& p == (Party {
                    z: p.z,
                    z_prime: p.z_prime,
                    y: p.y,
                    y_prime: p.y_prime,
                    u: p.u,
                    e: p.e,
                    o_prime: p.o_prime,
                    ..old(self).parties@[i]
                })
                &&& p.z.is_some()
                &&& p.z_prime.is_some()
                &&& p.y.is_some()
                &&& p.y_prime.is_some()
                &&& p.u.is_some()
                &&& p.e.is_some()
                &&& p.o_prime.is_some()
                &&& p.z.unwrap().val() as int == ((if i == 0 {
                    (b.val() + pow2((old(self).params.l - 1) as nat)) as int
                } else {
                    0int
                }) + crate::lwe::dot_vals(a@, old(self).parties@[i].sk.unwrap()@)) % (pow2(
                    old(self).params.k as nat,
                ) as int)
                &&& p.z_prime.unwrap().val() as int == (p.z.unwrap().val()
                    + p.r.unwrap().val()) as int % (pow2(old(self).params.l as nat) as int)
                &&& p.y_prime.unwrap().val() as int == (p.y.unwrap().val()
                    + p.s.unwrap().val()) as int % (pow2((old(self).params.d + 1) as nat) as int)
                &&& p.e.unwrap().val() as int == ((if i == 0 {
                    reveal_val(z_prime_fields(final(self).parties@), old(self).params.l as nat)
                } else {
                    0int
                }) - p.r.unwrap().val() + pow2(old(self).params.l as nat) * p.u.unwrap().val())
                    % (pow2(old(self).params.k as nat) as int)
                &&& p.o_prime.unwrap().val() as int == (p.z.unwrap().val() as int
                    - p.e.unwrap().val() as int) % (pow2(old(self).params.k as nat) as int)
            },
            msg.val() as int == (reveal_val(
                Seq::new(
                    final(self).parties@.len() as nat,
                    |i: int| final(self).parties@[i].o_prime.unwrap(),
                ),
                old(self).params.k as nat,
            ) + pow2((old(self).params.l - 1) as nat)) / (pow2(old(self).params.l as nat) as int),
    {
        let n = self.params.n;
        let k = self.params.k;
        let l = self.params.l;
        // round one: each party forms its z share
        let mut i: usize = 0;
        while i < n
            invariant
                i <= n,
                old(self).wf(),
                old(self).preprocessed(),
                old(self).key_shared(a@.len() as int),
                n == old(self).params.n,
                k == old(self).params.k,
                l == old(self).params.l,
                self.params == old(self).params,
                self.parties@.len() == old(self).parties@.len(),
                forall|i2: int| i <= i2 < self.parties@.len() ==> #[trigger] self.parties@[i2]
                    == old(self).parties@[i2],
                forall|i2: int| 0 <= i2 < i ==> #[trigger] self.parties@[i2] == (Party {
                    z: self.parties@[i2].z,
                    ..old(self).parties@[i2]
                }) && self.parties@[i2].z.is_some()
                    && self.parties@[i2].z.unwrap().val() as int == ((if i2 == 0 {
                    (b.val() + pow2((l - 1) as nat)) as int
                } else {
                    0int
                }) + crate::lwe::dot_vals(a@, old(self).parties@[i2].sk.unwrap()@)) % (pow2(
                    k as nat,
                ) as int),
            decreases n - i,
        {
            let mut p = self.parties.remove(i);
            let dot = crate::lwe::dot_mod(&a, p.sk.as_ref().unwrap(), k);
            let base = if p.party_number == 0 {
                let off = RingElement::pow2_elem(l - 1);
                b.add_mod(off, k)
            } else {
                RingElement::zero()
            };
            proof {
                let ghost q = pow2(k as nat) as int;
                lemma_pow2_pos(k as nat);
                let off = if i == 0 {
                    (b.val() + pow2((l - 1) as nat)) as int
                } else {
                    0int
                };
                let dv = crate::lwe::dot_vals(a@, old(self).parties@[i as int].sk.unwrap()@);
                vstd::arithmetic::div_mod::lemma_mod_twice(off, q);
                vstd::arithmetic::div_mod::lemma_mod_twice(dv, q);
                if i != 0 {
                    lemma_small_mod(0, pow2(k as nat));
                }
                crate::ring::lemma_mod_add_combine(base.val() as int, dot.val() as int, off, dv, q);
            }
            p.set_z(base.add_mod(dot, k));
            self.parties.insert(i, p);
            i = i + 1;
        }
        let ghost stagez = self.parties@;
        self.mod_l_protocol();
        proof {
            assert forall|i3: int| 0 <= i3 < self.parties@.len() implies (
            #[trigger] self.parties@[i3]) == (Party {
                z: self.parties@[i3].z,
                z_prime: self.parties@[i3].z_prime,
                y: self.parties@[i3].y,
                y_prime: self.parties@[i3].y_prime,
                u: self.parties@[i3].u,
                e: self.parties@[i3].e,
                ..old(self).parties@[i3]
            }) by {
                assert(stagez[i3] == (Party { z: stagez[i3].z, ..old(self).parties@[i3] }));
            }
        }
        // o' = z - e per party, revealed
        let ghost mid = self.parties@;
        let mut o_prime_shares: Vec<RingElement> = Vec::new();
        let mut i2: usize = 0;
        while i2 < n
            invariant
                i2 <= n,
                self.wf(),
                n == self.params.n,
                k == self.params.k,
                self.parties@.len() == n,
                forall|i3: int| 0 <= i3 < self.parties@.len() ==> (#[trigger] self.parties@[
                i3]).e.is_some() && self.parties@[i3].z.is_some(),
                o_prime_shares@.len() == i2,
                mid.len() == n,
                forall|i3: int| i2 <= i3 < self.parties@.len() ==> #[trigger] self.parties@[i3]
                    == mid[i3],
                forall|i3: int| 0 <= i3 < i2 ==> #[trigger] self.parties@[i3] == (Party {
                    o_prime: self.parties@[i3].o_prime,
                    ..mid[i3]
                }) && self.parties@[i3].o_prime == Some(o_prime_shares@[i3])
                    && self.parties@[i3].o_prime.unwrap().val() as int == (mid[
                    i3].z.unwrap().val() as int - mid[i3].e.unwrap().val() as int) % (pow2(
                    k as nat,
                ) as int),
            decreases n - i2,
        {
            let mut p = self.parties.remove(i2);
            let o_prime = p.z.unwrap().sub_mod(p.e.unwrap(), k);
            p.o_prime = Some(o_prime);
            o_prime_shares.push(o_prime);
            self.parties.insert(i2, p);
            i2 = i2 + 1;
        }
        let o_prime = AdditiveSecretSharing::reveal_shares(&o_prime_shares, k);
        // nearest multiple of L: add L/2, then drop the low l bits
        let half = RingElement::pow2_elem(l - 1);
        let shifted = o_prime.add_mod(half, 192);
        proof {
            vstd::arithmetic::power2::lemma_pow2_strictly_increases(k as nat, 192);
            vstd::arithmetic::power2::lemma_pow2_strictly_increases((l - 1) as nat, k as nat);
            vstd::arithmetic::power2::lemma_pow2_adds(k as nat, 1);
            vstd::arithmetic::power2::lemma2_to64();
            if k + 1 < 192 {
                vstd::arithmetic::power2::lemma_pow2_strictly_increases((k + 1) as nat, 192);
            }
            lemma_small_mod((o_prime.val() + half.val()) as nat, pow2(192));
            assert(Seq::new(self.parties@.len() as nat, |i: int| self.parties@[i].o_prime.unwrap())
                =~= o_prime_shares@);
            assert(z_prime_fields(self.parties@) =~= z_prime_fields(mid));
            assert forall|i3: int| 0 <= i3 < self.parties@.len() implies {
                let p = #[trigger] self.parties@[i3];
                &&& p == (Party {
                    z: p.z,
                    z_prime: p.z_prime,
                    y: p.y,
                    y_prime: p.y_prime,
                    u: p.u,
                    e: p.e,
                    o_prime: p.o_prime,
                    ..old(self).parties@[i3]
                })
                &&& p.z.unwrap().val() as int == ((if i3 == 0 {
                    (b.val() + pow2((l - 1) as nat)) as int
                } else {
                    0int
                }) + crate::lwe::dot_vals(a@, old(self).parties@[i3].sk.unwrap()@)) % (pow2(
                    k as nat,
                ) as int)
                &&& p.z_prime.unwrap().val() as int == (p.z.unwrap().val()
                    + p.r.unwrap().val()) as int % (pow2(l as nat) as int)
                &&& p.y_prime.unwrap().val() as int == (p.y.unwrap().val()
                    + p.s.unwrap().val()) as int % (pow2((self.params.d + 1) as nat) as int)
                &&& p.e.unwrap().val() as int == ((if i3 == 0 {
                    reveal_val(z_prime_fields(self.parties@), l as nat)
                } else {
                    0int
                }) - p.r.unwrap().val() + pow2(l as nat) * p.u.unwrap().val()) % (pow2(
                    k as nat,
                ) as int)
                &&& p.o_prime.unwrap().val() as int == (p.z.unwrap().val() as int
                    - p.e.unwrap().val() as int) % (pow2(k as nat) as int)
            } by {
                assert(self.parties@[i3] == (Party {
                    o_prime: self.parties@[i3].o_prime,
                    ..mid[i3]
                }));
                assert(stagez[i3] == (Party { z: stagez[i3].z, ..old(self).parties@[i3] }));
                assert(mid[i3] == (Party {
                    z_prime: mid[i3].z_prime,
                    y: mid[i3].y,
                    y_prime: mid[i3].y_prime,
                    u: mid[i3].u,
                    e: mid[i3].e,
                    ..stagez[i3]
                }));
            }
        }
        shifted.shr(l)
    }
}

/// An element-for-element copy of a share vector.
pub fn copy_vec(v: &Vec<RingElement>) -> (r: Vec<RingElement>)
    ensures
        r@ == v@,
{
    let mut r: Vec<RingElement> = Vec::new();
    let mut i: usize = 0;
    while i < v.len()
        invariant
            i <= v@.len(),
            r@.len() == i,
            forall|j: int| 0 <= j < r@.len() ==> (#[trigger] r@[j]) == v@[j],
        decreases v@.len() - i,
    {
        r.push(v[i]);
        i = i + 1;
    }
    proof {
        assert(r@ =~= v@);
    }
    r
}

} // verus!
