//! The trusted dealer: the correlated randomness of one decryption,
//! shared out so that every party holds one slice of s, r, sk and of
//! the truth tables.

use vstd::prelude::*;

verus! {

use vstd::arithmetic::power2::pow2;
use crate::ring::{RingElement, SignedElement};
use crate::sharing::{AdditiveSecretSharing, sum_vals, is_sharing_of};
use crate::gates::{PreprocessedGate, SignFunction, LessThanZeroFunction, ProcessingFunction};
use crate::params::PublicParameters;

/// One party's slice of the dealer output.
#[derive(Debug, Clone)]
pub struct PreprocessedShare {
    /// Share of the table secret s, ring d+1.
    pub s: RingElement,
    /// Share of the mask r, ring k.
    pub r: RingElement,
    /// Shares of the secret key entries, ring k.
    pub sk: Vec<RingElement>,
    /// This party's column of the less-than-zero table.
    pub ltz: Vec<RingElement>,
    /// This party's columns of the sign tables: B rows, d columns.
    pub signs: Vec<Vec<RingElement>>,
}

impl PreprocessedShare {
    /// The shapes a bundle must have under the given parameters.
    pub open spec fn wf(self, params: PublicParameters, sk_len: int) -> bool {
        &&& self.sk@.len() == sk_len
        &&& self.ltz@.len() == params.big_d
        &&& self.signs@.len() == params.big_b
        &&& (forall|v: int| 0 <= v < self.signs@.len() ==> (#[trigger] self.signs@[v])@.len()
            == params.d)
    }
}

/// The dealer.
#[derive(Debug, Clone)]
pub struct Preprocessing {
    pub params: PublicParameters,
}

impl Preprocessing {
    pub fn new(params: &PublicParameters) -> (r: Preprocessing)
        ensures
            r.params == params,
    {
        Preprocessing { params: params.clone() }
    }

    /// Split the secrets into one bundle per party: additive shares of s
    /// (ring d+1), r (ring k) and each key entry (ring k), the party's
    /// column of the LTZ table of s, and its columns of the sign tables
    /// of r's digits.
    pub fn run(&self, s: RingElement, r: RingElement, sk: Vec<RingElement>) -> (shares: Vec<
        PreprocessedShare,
    >)
        requires
            self.params.wf(),
            r.val() < pow2(self.params.l as nat),
        ensures
            shares@.len() == self.params.n,
            forall|i: int| 0 <= i < shares@.len() ==> (#[trigger] shares@[i]).wf(
                self.params,
                sk@.len() as int,
            ),
            sum_vals(Seq::new(shares@.len(), |i: int| shares@[i].s)) % (pow2(
                (self.params.d + 1) as nat,
            ) as int) == s.val() as int % (pow2((self.params.d + 1) as nat) as int),
            sum_vals(Seq::new(shares@.len(), |i: int| shares@[i].r)) % (pow2(
                self.params.k as nat,
            ) as int) == r.val() as int % (pow2(self.params.k as nat) as int),
            forall|j: int| 0 <= j < sk@.len() ==> sum_vals(
                Seq::new(shares@.len(), |i: int| shares@[i].sk@[j]),
            ) % (pow2(self.params.k as nat) as int) == (#[trigger] sk@[j]).val() as int % (pow2(
                self.params.k as nat,
            ) as int),
            forall|v: int| 0 <= v < self.params.big_d ==> sum_vals(
                Seq::new(shares@.len(), |i: int| shares@[i].ltz@[v]),
            ) % (pow2(self.params.m as nat) as int) == (#[trigger] (LessThanZeroFunction {
                modulo_exponent: (self.params.d + 1) as usize,
            }).spec_apply(v, s.val() as int)) % (pow2(self.params.m as nat) as int),
            exists|rdigits: Seq<u64>|
                crate::party::Party::is_padded_digits(
                    rdigits,
                    r.val() as int,
                    self.params.big_b as int,
                    self.params.d as int,
                ) && (forall|j: int, v: int|
                    0 <= j < self.params.d && 0 <= v < self.params.big_b ==> sum_vals(
                        Seq::new(shares@.len(), |i: int| shares@[i].signs@[v]@[j]),
                    ) % (pow2((self.params.d + 1) as nat) as int) == (#[trigger] (
                    SignFunction).spec_apply(v, rdigits[j] as int)) % (pow2(
                        (self.params.d + 1) as nat,
                    ) as int)),
    {
        let n = self.params.n;
        let de = self.params.d + 1;
        let s_shares = AdditiveSecretSharing::share(&SignedElement::from_element(s), n, de);
        let ltz_function = LessThanZeroFunction { modulo_exponent: de };
        let ltz_gate = PreprocessedGate::build(
            ltz_function,
            SignedElement::from_element(s),
            n,
            self.params.big_d,
            self.params.m,
        );
        let r_shares = AdditiveSecretSharing::share(
            &SignedElement::from_element(r),
            n,
            self.params.k,
        );
        let r_digits = crate::party::padded_digits(&self.params, &r);
        // one sign table per digit of r; party columns are gathered into
        // a B x d matrix per party
        let mut sign_columns: Vec<Vec<Vec<RingElement>>> = Vec::new();
        let mut i: usize = 0;
        while i < n
            invariant
                i <= n,
                self.params.wf(),
                sign_columns@.len() == i,
                forall|i2: int| 0 <= i2 < sign_columns@.len() ==> (#[trigger] sign_columns@[
                i2])@.len() == self.params.big_b,
                forall|i2: int, v: int|
                    0 <= i2 < sign_columns@.len() && 0 <= v < self.params.big_b ==> (
                    #[trigger] sign_columns@[i2]@[v])@.len() == 0,
            decreases n - i,
        {
            let mut rows: Vec<Vec<RingElement>> = Vec::new();
            let mut v: usize = 0;
            while v < self.params.big_b
                invariant
                    v <= self.params.big_b,
                    rows@.len() == v,
                    forall|v2: int| 0 <= v2 < rows@.len() ==> (#[trigger] rows@[v2])@.len() == 0,
                decreases self.params.big_b - v,
            {
                rows.push(Vec::new());
                v = v + 1;
            }
            sign_columns.push(rows);
            i = i + 1;
        }
        let mut dig: usize = 0;
        while dig < self.params.d
            invariant
                dig <= self.params.d,
                de == self.params.d + 1,
                de <= 192,
                self.params.wf(),
                r_digits@.len() == self.params.d,
                n == self.params.n,
                sign_columns@.len() == n,
                forall|i2: int| 0 <= i2 < sign_columns@.len() ==> (#[trigger] sign_columns@[
                i2])@.len() == self.params.big_b,
                forall|i2: int, v: int|
                    0 <= i2 < sign_columns@.len() && 0 <= v < self.params.big_b ==> (
                    #[trigger] sign_columns@[i2]@[v])@.len() == dig,
                forall|j: int, v: int|
                    0 <= j < dig && 0 <= v < self.params.big_b ==> sum_vals(
                        Seq::new(n as nat, |i3: int| sign_columns@[i3]@[v]@[j]),
                    ) % (pow2(de as nat) as int) == (#[trigger] (SignFunction).spec_apply(
                        v,
                        r_digits@[j] as int,
                    )) % (pow2(de as nat) as int),
            decreases self.params.d - dig,
        {
            let digit = SignedElement::from_u64(r_digits[dig]);
            let gate = PreprocessedGate::build(SignFunction, digit, n, self.params.big_b, de);
            let ghost cols0 = sign_columns@;
            let mut i2: usize = 0;
            while i2 < n
                invariant
                    i2 <= n,
                    dig < self.params.d,
                    self.params.wf(),
                    n == self.params.n,
                    sign_columns@.len() == n,
                    gate.wf(digit.ival(), n as int, self.params.big_b as int, de as nat),
                    de == self.params.d + 1,
                    forall|i3: int| 0 <= i3 < sign_columns@.len() ==> (#[trigger] sign_columns@[
                    i3])@.len() == self.params.big_b,
                    forall|i3: int, v: int|
                        0 <= i3 < i2 && 0 <= v < self.params.big_b ==> (
                        #[trigger] sign_columns@[i3]@[v])@.len() == dig + 1,
                    forall|i3: int, v: int|
                        i2 <= i3 < sign_columns@.len() && 0 <= v < self.params.big_b ==> (
                        #[trigger] sign_columns@[i3]@[v])@.len() == dig,
                    cols0.len() == n,
                    forall|i3: int| i2 <= i3 < n ==> #[trigger] sign_columns@[i3] == cols0[i3],
                    forall|i3: int, v: int, j: int|
                        0 <= i3 < i2 && 0 <= v < self.params.big_b && 0 <= j < dig
                            ==> #[trigger] sign_columns@[i3]@[v]@[j] == cols0[i3]@[v]@[j],
                    forall|i3: int, v: int|
                        0 <= i3 < i2 && 0 <= v < self.params.big_b
                            ==> #[trigger] sign_columns@[i3]@[v]@[dig as int]
                            == gate.truth_table@[v]@[i3],
                decreases n - i2,
            {
                let col = gate.get_party_shares(i2);
                let mut target = sign_columns.remove(i2);
                let ghost tsnap = target@;
                let mut v: usize = 0;
                while v < target.len()
                    invariant
                        v <= target@.len(),
                        target@.len() == self.params.big_b,
                        col@.len() == self.params.big_b,
                        tsnap.len() == self.params.big_b,
                        forall|v2: int| 0 <= v2 < tsnap.len() ==> (#[trigger] tsnap[v2])@.len()
                            == dig,
                        forall|v2: int| 0 <= v2 < v ==> (#[trigger] target@[v2])@.len() == dig
                            + 1,
                        forall|v2: int| v <= v2 < target@.len() ==> #[trigger] target@[v2]
                            == tsnap[v2],
                        forall|v2: int, j2: int|
                            0 <= v2 < v && 0 <= j2 < dig ==> #[trigger] target@[v2]@[j2]
                                == tsnap[v2]@[j2],
                        forall|v2: int| 0 <= v2 < v ==> (#[trigger] target@[v2])@[dig as int]
                            == col@[v2],
                    decreases target@.len() - v,
                {
                    let mut row = target.remove(v);
                    row.push(col[v]);
                    target.insert(v, row);
                    v = v + 1;
                }
                sign_columns.insert(i2, target);
                i2 = i2 + 1;
            }
            proof {
                assert forall|j: int, v: int|
                    0 <= j < dig + 1 && 0 <= v < self.params.big_b implies sum_vals(
                    Seq::new(n as nat, |i3: int| sign_columns@[i3]@[v]@[j]),
                ) % (pow2(de as nat) as int) == ((SignFunction).spec_apply(
                    v,
                    r_digits@[j] as int,
                )) % (pow2(de as nat) as int) by {
                    if j < dig {
                        // the older columns did not move
                        assert(Seq::new(n as nat, |i3: int| sign_columns@[i3]@[v]@[j]) =~= Seq::new(
                            n as nat,
                            |i3: int| cols0[i3]@[v]@[j],
                        ));
                    } else {
                        // the new column is exactly this digit's table row
                        assert(is_sharing_of(
                            gate.truth_table@[v]@,
                            (SignFunction).spec_apply(v, digit.ival()),
                            n as int,
                            de as nat,
                        ));
                        assert(Seq::new(n as nat, |i3: int| sign_columns@[i3]@[v]@[j])
                            =~= gate.truth_table@[v]@);
                    }
                }
            }
            dig = dig + 1;
        }
        // share the key entries and assemble the bundles
        let mut sk_shares: Vec<Vec<RingElement>> = Vec::new();
        let mut j: usize = 0;
        while j < sk.len()
            invariant
                j <= sk@.len(),
                self.params.wf(),
                n == self.params.n,
                sk_shares@.len() == j,
                forall|j2: int| 0 <= j2 < sk_shares@.len() ==> is_sharing_of(
                    (#[trigger] sk_shares@[j2])@,
                    sk@[j2].val() as int,
                    n as int,
                    self.params.k as nat,
                ),
            decreases sk@.len() - j,
        {
            sk_shares.push(
                AdditiveSecretSharing::share(&SignedElement::from_element(sk[j]), n, self.params.k),
            );
            j = j + 1;
        }
        let mut shares: Vec<PreprocessedShare> = Vec::new();
        let mut i4: usize = 0;
        while i4 < n
            invariant
                i4 <= n,
                self.params.wf(),
                n == self.params.n,
                s_shares@.len() == n,
                r_shares@.len() == n,
                sign_columns@.len() == n,
                ltz_gate.truth_table@.len() == self.params.big_d,
                forall|w: int| 0 <= w < ltz_gate.truth_table@.len() ==> (
                #[trigger] ltz_gate.truth_table@[w])@.len() == n,
                forall|i3: int| 0 <= i3 < sign_columns@.len() ==> (#[trigger] sign_columns@[
                i3])@.len() == self.params.big_b,
                forall|i3: int, v: int|
                    0 <= i3 < sign_columns@.len() && 0 <= v < self.params.big_b ==> (
                    #[trigger] sign_columns@[i3]@[v])@.len() == self.params.d,
                sk_shares@.len() == sk@.len(),
                forall|j2: int| 0 <= j2 < sk_shares@.len() ==> (#[trigger] sk_shares@[j2])@.len()
                    == n,
                shares@.len() == i4,
                forall|i3: int| 0 <= i3 < shares@.len() ==> (#[trigger] shares@[i3]).wf(
                    self.params,
                    sk@.len() as int,
                ),
                forall|i3: int| 0 <= i3 < shares@.len() ==> (#[trigger] shares@[i3]).s
                    == s_shares@[i3],
                forall|i3: int| 0 <= i3 < shares@.len() ==> (#[trigger] shares@[i3]).r
                    == r_shares@[i3],
                forall|i3: int, j2: int|
                    0 <= i3 < shares@.len() && 0 <= j2 < sk@.len() ==> (#[trigger] shares@[
                    i3].sk@[j2]) == sk_shares@[j2]@[i3],
                forall|i3: int, v: int|
                    0 <= i3 < shares@.len() && 0 <= v < self.params.big_d ==> (#[trigger] shares@[
                    i3].ltz@[v]) == ltz_gate.truth_table@[v]@[i3],
                forall|i3: int, v: int|
                    0 <= i3 < shares@.len() && 0 <= v < self.params.big_b ==> (#[trigger] shares@[
                    i3].signs@[v])@ == sign_columns@[i3]@[v]@,
            decreases n - i4,
        {
            let mut party_sk: Vec<RingElement> = Vec::new();
            let mut j2: usize = 0;
            while j2 < sk_shares.len()
                invariant
                    j2 <= sk_shares@.len(),
                    i4 < n,
                    forall|j3: int| 0 <= j3 < sk_shares@.len() ==> (#[trigger] sk_shares@[
                    j3])@.len() == n,
                    party_sk@.len() == j2,
                    forall|j3: int| 0 <= j3 < party_sk@.len() ==> (#[trigger] party_sk@[j3])
                        == sk_shares@[j3]@[i4 as int],
                decreases sk_shares@.len() - j2,
            {
                party_sk.push(sk_shares[j2][i4]);
                j2 = j2 + 1;
            }
            let bundle = PreprocessedShare {
                s: s_shares[i4],
                r: r_shares[i4],
                sk: party_sk,
                ltz: ltz_gate.get_party_shares(i4),
                signs: copy_matrix(&sign_columns[i4]),
            };
            shares.push(bundle);
            i4 = i4 + 1;
        }
        proof {
            assert(Seq::new(shares@.len(), |i: int| shares@[i].s) =~= s_shares@);
            assert(Seq::new(shares@.len(), |i: int| shares@[i].r) =~= r_shares@);
            assert forall|j3: int| 0 <= j3 < sk@.len() implies sum_vals(
                Seq::new(shares@.len(), |i: int| shares@[i].sk@[j3]),
            ) % (pow2(self.params.k as nat) as int) == sk@[j3].val() as int % (pow2(
                self.params.k as nat,
            ) as int) by {
                assert(Seq::new(shares@.len(), |i: int| shares@[i].sk@[j3]) =~= Seq::new(
                    sk_shares@[j3]@.len(),
                    |i: int| sk_shares@[j3]@[i],
                ));
                assert(Seq::new(sk_shares@[j3]@.len(), |i: int| sk_shares@[j3]@[i]) =~= sk_shares@[
                j3]@);
            }
            assert(crate::party::Party::is_padded_digits(
                r_digits@,
                r.val() as int,
                self.params.big_b as int,
                self.params.d as int,
            ));
            assert forall|j3: int, v: int|
                0 <= j3 < self.params.d && 0 <= v < self.params.big_b implies sum_vals(
                Seq::new(shares@.len(), |i: int| shares@[i].signs@[v]@[j3]),
            ) % (pow2((self.params.d + 1) as nat) as int) == ((SignFunction).spec_apply(
                v,
                r_digits@[j3] as int,
            )) % (pow2((self.params.d + 1) as nat) as int) by {
                assert(Seq::new(shares@.len(), |i: int| shares@[i].signs@[v]@[j3]) =~= Seq::new(
                    n as nat,
                    |i3: int| sign_columns@[i3]@[v]@[j3],
                ));
            }
            assert forall|v: int| 0 <= v < self.params.big_d implies sum_vals(
                Seq::new(shares@.len(), |i: int| shares@[i].ltz@[v]),
            ) % (pow2(self.params.m as nat) as int) == (#[trigger] (LessThanZeroFunction {
                modulo_exponent: (self.params.d + 1) as usize,
            }).spec_apply(v, s.val() as int)) % (pow2(self.params.m as nat) as int) by {
                assert(is_sharing_of(
                    ltz_gate.truth_table@[v]@,
                    (LessThanZeroFunction { modulo_exponent: (self.params.d + 1) as usize }).spec_apply(
                        v,
                        s.val() as int,
                    ),
                    n as int,
                    self.params.m as nat,
                ));
                assert(Seq::new(shares@.len(), |i: int| shares@[i].ltz@[v])
                    =~= ltz_gate.truth_table@[v]@);
            }
        }
        shares
    }
}

/// An element-for-element copy of a matrix of shares.
pub fn copy_matrix(m: &Vec<Vec<RingElement>>) -> (r: Vec<Vec<RingElement>>)
    ensures
        r@.len() == m@.len(),
        forall|i: int| 0 <= i < r@.len() ==> (#[trigger] r@[i])@ == m@[i]@,
{
    let mut r: Vec<Vec<RingElement>> = Vec::new();
    let mut i: usize = 0;
    while i < m.len()
        invariant
            i <= m@.len(),
            r@.len() == i,
            forall|i2: int| 0 <= i2 < r@.len() ==> (#[trigger] r@[i2])@ == m@[i2]@,
        decreases m@.len() - i,
    {
        let row = &m[i];
        let mut nr: Vec<RingElement> = Vec::new();
        let mut j: usize = 0;
        while j < row.len()
            invariant
                j <= row@.len(),
                nr@.len() == j,
                forall|j2: int| 0 <= j2 < nr@.len() ==> (#[trigger] nr@[j2]) == row@[j2],
            decreases row@.len() - j,
        {
            nr.push(row[j]);
            j = j + 1;
        }
        proof {
            assert(nr@ =~= m@[i as int]@);
        }
        r.push(nr);
        i = i + 1;
    }
    r
}

} // verus!
