//! Preprocessed gate tables: one-time truth tables of f(i, s) shared
//! among the parties, for a secret s known only to the dealer.

use vstd::prelude::*;

verus! {

use vstd::arithmetic::power2::{pow2, lemma_pow2_pos};
use crate::ring::{RingElement, SignedElement, lemma_mod_sub_combine};
use crate::sharing::{AdditiveSecretSharing, is_sharing_of};

/// A function of a public index and a dealer secret whose truth table is
/// shared ahead of time.
pub trait ProcessingFunction: Sized {
    /// The mathematical function being tabulated.
    spec fn spec_apply(&self, index: int, secret: int) -> int;

    /// Evaluate the function on concrete values.
    fn apply(&self, index: &SignedElement, secret: &SignedElement) -> (r: SignedElement)
        ensures
            r.ival() == self.spec_apply(index.ival(), secret.ival()),
    ;
}

/// The three-way comparison sign(index - secret) in {-1, 0, 1}.
pub struct SignFunction;

impl ProcessingFunction for SignFunction {
    open spec fn spec_apply(&self, index: int, secret: int) -> int {
        if index < secret {
            -1
        } else if index == secret {
            0
        } else {
            1
        }
    }

    fn apply(&self, index: &SignedElement, secret: &SignedElement) -> (r: SignedElement)
        ensures
            r.ival() == self.spec_apply(index.ival(), secret.ival()),
    {
        let a_neg = index.negative && !index.magnitude.is_zero();
        let b_neg = secret.negative && !secret.magnitude.is_zero();
        if a_neg != b_neg {
            if a_neg {
                SignedElement::from_i64(-1)
            } else {
                SignedElement::from_i64(1)
            }
        } else if index.magnitude.lt(secret.magnitude) {
            if a_neg {
                SignedElement::from_i64(1)
            } else {
                SignedElement::from_i64(-1)
            }
        } else if secret.magnitude.lt(index.magnitude) {
            if a_neg {
                SignedElement::from_i64(-1)
            } else {
                SignedElement::from_i64(1)
            }
        } else {
            SignedElement::from_i64(0)
        }
    }
}

/// The indicator [ (index - secret) mod 2^me lies in the upper half ],
/// i.e. whether index - secret is "negative" in the ring 2^me.
pub struct LessThanZeroFunction {
    /// The modulus is the power of two 2^modulo_exponent.
    pub modulo_exponent: usize,
}

impl ProcessingFunction for LessThanZeroFunction {
    open spec fn spec_apply(&self, index: int, secret: int) -> int {
        if self.modulo_exponent <= 192 && (index - secret) % (pow2(
            self.modulo_exponent as nat,
        ) as int) >= pow2(self.modulo_exponent as nat) as int / 2 {
            1
        } else {
            0
        }
    }

    fn apply(&self, index: &SignedElement, secret: &SignedElement) -> (r: SignedElement)
        ensures
            r.ival() == self.spec_apply(index.ival(), secret.ival()),
    {
        if self.modulo_exponent > 192 {
            return SignedElement::from_u64(0);
        }
        let me = self.modulo_exponent;
        let ghost q = pow2(me as nat) as int;
        let diff = index.mod_pow2(me).sub_mod(secret.mod_pow2(me), me);
        let half = if me == 0 {
            RingElement::zero()
        } else {
            RingElement::pow2_elem(me - 1)
        };
        proof {
            lemma_pow2_pos(me as nat);
            vstd::arithmetic::power2::lemma2_to64();
            vstd::arithmetic::div_mod::lemma_mod_twice(index.ival(), q);
            vstd::arithmetic::div_mod::lemma_mod_twice(secret.ival(), q);
            lemma_mod_sub_combine(
                index.ival() % q,
                secret.ival() % q,
                index.ival(),
                secret.ival(),
                q,
            );
            if me >= 1 {
                vstd::arithmetic::power2::lemma_pow2_adds((me - 1) as nat, 1);
                vstd::arithmetic::power2::lemma2_to64();
                // 2^me / 2 == 2^(me-1)
                vstd::arithmetic::div_mod::lemma_fundamental_div_mod_converse(
                    pow2(me as nat) as int,
                    2,
                    pow2((me - 1) as nat) as int,
                    0,
                );
            }
        }
        if diff.lt(half) {
            SignedElement::from_u64(0)
        } else {
            SignedElement::from_u64(1)
        }
    }
}

/// An R x N table whose row i is an N-way sharing of f(i, secret) in the
/// ring 2^field_exponent.
pub struct PreprocessedGate<F: ProcessingFunction> {
    /// Row i holds the N shares of f(i, secret).
    pub truth_table: Vec<Vec<RingElement>>,
    /// The tabulated function.
    pub func: F,
}

impl<F: ProcessingFunction> PreprocessedGate<F> {
    /// Every row of the table is a sharing of the function value at its
    /// index, among `num_parties` parties in the ring 2^`field_exponent`.
    pub open spec fn wf(self, secret: int, num_parties: int, num_rows: int, field_exponent: nat)
        -> bool {
        &&& self.truth_table@.len() == num_rows
        &&& forall|i: int| 0 <= i < num_rows ==> is_sharing_of(
            #[trigger] self.truth_table@[i]@,
            self.func.spec_apply(i, secret),
            num_parties,
            field_exponent,
        )
    }

    /// Build the shared truth table of `func` at `secret`.
    pub fn build(func: F, secret: SignedElement, num_parties: usize, num_rows: usize,
        field_exponent: usize) -> (r: Self)
        requires
            num_parties >= 1,
            field_exponent <= 192,
        ensures
            r.wf(secret.ival(), num_parties as int, num_rows as int, field_exponent as nat),
            r.func == func,
    {
        let mut truth_table: Vec<Vec<RingElement>> = Vec::new();
        let mut i: usize = 0;
        while i < num_rows
            invariant
                i <= num_rows,
                num_parties >= 1,
                field_exponent <= 192,
                truth_table@.len() == i,
                forall|j: int| 0 <= j < i ==> is_sharing_of(
                    #[trigger] truth_table@[j]@,
                    func.spec_apply(j, secret.ival()),
                    num_parties as int,
                    field_exponent as nat,
                ),
            decreases num_rows - i,
        {
            let index = SignedElement::from_u64(i as u64);
            let value_to_share = func.apply(&index, &secret);
            let row = AdditiveSecretSharing::share(&value_to_share, num_parties, field_exponent);
            truth_table.push(row);
            i = i + 1;
        }
        PreprocessedGate { truth_table, func }
    }

    /// The column of one party: its share of every row.
    pub fn get_party_shares(&self, party_index: usize) -> (r: Vec<RingElement>)
        requires
            forall|i: int| 0 <= i < self.truth_table@.len() ==> party_index < (
            #[trigger] self.truth_table@[i])@.len(),
        ensures
            r@.len() == self.truth_table@.len(),
            forall|i: int| 0 <= i < r@.len() ==> #[trigger] r@[i]
                == self.truth_table@[i]@[party_index as int],
    {
        let mut r: Vec<RingElement> = Vec::new();
        let mut i: usize = 0;
        while i < self.truth_table.len()
            invariant
                i <= self.truth_table@.len(),
                forall|j: int| 0 <= j < self.truth_table@.len() ==> party_index < (
                #[trigger] self.truth_table@[j])@.len(),
                r@.len() == i,
                forall|j: int| 0 <= j < r@.len() ==> #[trigger] r@[j]
                    == self.truth_table@[j]@[party_index as int],
            decreases self.truth_table@.len() - i,
        {
            r.push(self.truth_table[i][party_index]);
            i = i + 1;
        }
        r
    }

    /// One row of the table: the N shares of f(table_index, secret).
    pub fn get_table_index_shares(&self, table_index: usize) -> (r: Vec<RingElement>)
        requires
            table_index < self.truth_table@.len(),
        ensures
            r@ == self.truth_table@[table_index as int]@,
    {
        let row = &self.truth_table[table_index];
        let mut r: Vec<RingElement> = Vec::new();
        let mut i: usize = 0;
        while i < row.len()
            invariant
                i <= row@.len(),
                r@.len() == i,
                forall|j: int| 0 <= j < r@.len() ==> #[trigger] r@[j] == row@[j],
            decreases row@.len() - i,
        {
            r.push(row[i]);
            i = i + 1;
        }
        proof {
            assert(r@ =~= row@);
        }
        r
    }
}

} // verus!
