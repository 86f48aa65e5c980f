//! Additive secret sharing over Z/2^e.
//!
//! A secret x is split into N shares that are uniform in [0, 2^e) and sum
//! to x modulo 2^e; revealing sums the shares and reduces.  Shares combine
//! linearly: pointwise subtraction of two sharings is a sharing of the
//! difference.

use vstd::prelude::*;

verus! {

use vstd::arithmetic::power2::pow2;
use vstd::arithmetic::power2::lemma_pow2_pos;
use vstd::arithmetic::div_mod::{lemma_small_mod, lemma_mod_bound, lemma_mod_twice};
use crate::ring::{
    RingElement, SignedElement, random_below_pow2, lemma_mod_add_combine, lemma_mod_sub_combine,
};

/// The integer sum of the values of a list of shares.
pub open spec fn sum_vals(s: Seq<RingElement>) -> int
    decreases s.len(),
{
    if s.len() == 0 {
        0
    } else {
        sum_vals(s.drop_last()) + s.last().val()
    }
}

/// What a reveal returns: the sum of the shares, reduced mod 2^e.
pub open spec fn reveal_val(s: Seq<RingElement>, e: nat) -> int {
    sum_vals(s) % (pow2(e) as int)
}

pub proof fn lemma_sum_push(s: Seq<RingElement>, x: RingElement)
    ensures
        sum_vals(s.push(x)) == sum_vals(s) + x.val(),
{
    assert(s.push(x).drop_last() =~= s);
}

pub proof fn lemma_sum_take_step(s: Seq<RingElement>, i: int)
    requires
        0 <= i < s.len(),
    ensures
        sum_vals(s.take(i + 1)) == sum_vals(s.take(i)) + s[i].val(),
{
    assert(s.take(i + 1).drop_last() =~= s.take(i));
    assert(s.take(i + 1).last() == s[i]);
}

pub proof fn lemma_sum_take_all(s: Seq<RingElement>)
    ensures
        sum_vals(s.take(s.len() as int)) == sum_vals(s),
{
    assert(s.take(s.len() as int) =~= s);
}

/// The sum of a sequence of integers.
pub open spec fn int_sum(s: Seq<int>) -> int
    decreases s.len(),
{
    if s.len() == 0 {
        0
    } else {
        int_sum(s.drop_last()) + s.last()
    }
}

/// A sharing of x among N parties in the ring 2^e: the right count, every
/// share canonical, and the sum congruent to x.
pub open spec fn is_sharing_of(s: Seq<RingElement>, x: int, n: int, e: nat) -> bool {
    &&& s.len() == n
    &&& (forall|i: int| 0 <= i < s.len() ==> (#[trigger] s[i]).val() < pow2(e))
    &&& sum_vals(s) % (pow2(e) as int) == x % (pow2(e) as int)
}

/// Ascending by represented value.
pub open spec fn sorted_by_val(s: Seq<RingElement>) -> bool {
    forall|i: int, j: int| 0 <= i < j < s.len() ==> (#[trigger] s[i]).val() <= (#[trigger] s[j]).val()
}

/// Removing one element takes exactly its value out of the sum.
pub proof fn lemma_sum_remove(s: Seq<RingElement>, j: int)
    requires
        0 <= j < s.len(),
    ensures
        sum_vals(s) == sum_vals(s.remove(j)) + s[j].val(),
    decreases s.len(),
{
    if j == s.len() - 1 {
        assert(s.remove(j) =~= s.drop_last());
    } else {
        assert(s.remove(j).drop_last() =~= s.drop_last().remove(j));
        assert(s.remove(j).last() == s.last());
        lemma_sum_remove(s.drop_last(), j);
    }
}

/// Two lists with the same multiset of shares have the same sum, so a
/// reveal does not depend on the order the shares arrived in.
pub proof fn lemma_sum_vals_permuted(a: Seq<RingElement>, b: Seq<RingElement>)
    requires
        a.to_multiset() == b.to_multiset(),
    ensures
        sum_vals(a) == sum_vals(b),
    decreases a.len(),
{
    broadcast use vstd::seq_lib::group_to_multiset_ensures;

    if a.len() == 0 {
        assert(b.to_multiset().len() == 0);
    } else {
        let x = a.last();
        assert(a =~= a.drop_last().push(x));
        assert(a.to_multiset() =~= a.drop_last().to_multiset().insert(x));
        assert(b.to_multiset().count(x) > 0);
        assert(b.contains(x));
        let j = choose|j: int| 0 <= j < b.len() && b[j] == x;
        assert(b.remove(j).to_multiset() =~= b.to_multiset().remove(x));
        assert(a.drop_last().to_multiset() =~= b.remove(j).to_multiset());
        lemma_sum_vals_permuted(a.drop_last(), b.remove(j));
        lemma_sum_remove(b, j);
    }
}

/// Sort shares ascending by value.  Reveals are order-independent, but a
/// sorted list makes runs reproducible, as the protocol asks.
pub fn sort_shares(v: Vec<RingElement>) -> (r: Vec<RingElement>)
    ensures
        r@.len() == v@.len(),
        sorted_by_val(r@),
        r@.to_multiset() == v@.to_multiset(),
{
    proof {
        broadcast use vstd::seq_lib::group_to_multiset_ensures;
    }
    let mut rest = v;
    let mut out: Vec<RingElement> = Vec::new();
    let ghost whole = rest@.to_multiset();
    while rest.len() > 0
        invariant
            out@.to_multiset().add(rest@.to_multiset()) == whole,
            whole == v@.to_multiset(),
            out@.len() + rest@.len() == v@.len(),
            sorted_by_val(out@),
            forall|i: int, j: int|
                0 <= i < out@.len() && 0 <= j < rest@.len() ==> (#[trigger] out@[i]).val() <= (
                #[trigger] rest@[j]).val(),
        decreases rest@.len(),
    {
        // pick the least remaining share
        let mut m: usize = 0;
        let mut idx: usize = 1;
        while idx < rest.len()
            invariant
                m < idx <= rest@.len(),
                rest@.len() > 0,
                forall|j: int| 0 <= j < idx ==> rest@[m as int].val() <= (#[trigger] rest@[j]).val(),
            decreases rest@.len() - idx,
        {
            if rest[idx].lt(rest[m]) {
                m = idx;
            }
            idx = idx + 1;
        }
        let x = rest.remove(m);
        proof {
            broadcast use vstd::seq_lib::group_to_multiset_ensures;

            assert(out@.push(x).to_multiset() =~= out@.to_multiset().insert(x));
            assert(out@.push(x).to_multiset().add(rest@.to_multiset()) =~= whole);
        }
        out.push(x);
    }
    proof {
        assert(rest@.to_multiset().len() == 0);
        assert(out@.to_multiset() =~= whole);
    }
    out
}

/// Revealing any sharing of x returns exactly x reduced mod 2^e: the
/// sum of the shares of `share(x, N, e)` is congruent to x, and a reveal
/// is that sum reduced.
pub proof fn lemma_share_reveal_roundtrip(shares: Seq<RingElement>, x: int, n: int, e: nat)
    requires
        is_sharing_of(shares, x, n, e),
    ensures
        reveal_val(shares, e) == x % (pow2(e) as int),
{
}

/// Additive secret sharing over the ring of integers modulo a power of two.
pub struct AdditiveSecretSharing;

impl AdditiveSecretSharing {
    /// Split a secret into `num_shares` values summing to it mod 2^e.
    /// All but the last share are drawn uniformly from [0, 2^e).
    pub fn share(secret: &SignedElement, num_shares: usize, ring_exponent: usize) -> (shares: Vec<
        RingElement,
    >)
        requires
            num_shares >= 1,
            ring_exponent <= 192,
        ensures
            is_sharing_of(shares@, secret.ival(), num_shares as int, ring_exponent as nat),
    {
        let e = ring_exponent;
        let ghost q = pow2(e as nat) as int;
        proof {
            lemma_pow2_pos(e as nat);
        }
        let mut shares: Vec<RingElement> = Vec::new();
        let mut acc = RingElement::zero();
        let mut i: usize = 0;
        proof {
            lemma_small_mod(0, pow2(e as nat));
        }
        while i < num_shares - 1
            invariant
                i <= num_shares - 1,
                ring_exponent <= 192,
                e == ring_exponent,
                q == pow2(e as nat) as int,
                q > 0,
                shares@.len() == i,
                forall|j: int| 0 <= j < shares@.len() ==> (#[trigger] shares@[j]).val() < pow2(
                    e as nat,
                ),
                acc.val() as int == sum_vals(shares@) % q,
            decreases num_shares - 1 - i,
        {
            let s = random_below_pow2(e);
            let new_acc = acc.add_mod(s, e);
            proof {
                lemma_sum_push(shares@, s);
                lemma_small_mod(s.val(), pow2(e as nat));
                lemma_mod_twice(sum_vals(shares@), q);
                lemma_mod_add_combine(
                    acc.val() as int,
                    s.val() as int,
                    sum_vals(shares@),
                    s.val() as int,
                    q,
                );
            }
            shares.push(s);
            acc = new_acc;
            i = i + 1;
        }
        // the last share makes the sum land on the secret
        let last = secret.mod_pow2(e).sub_mod(acc, e);
        proof {
            lemma_mod_bound(secret.ival(), q);
            lemma_mod_twice(secret.ival(), q);
            lemma_mod_bound(secret.ival() % q - acc.val() as int, q);
            lemma_mod_twice(sum_vals(shares@), q);
            lemma_sum_push(shares@, last);
            // sum + last == sum + (x - sum) == x  (mod q)
            lemma_mod_sub_combine(
                secret.ival() % q,
                acc.val() as int,
                secret.ival(),
                sum_vals(shares@),
                q,
            );
            lemma_mod_add_combine(
                sum_vals(shares@),
                last.val() as int,
                sum_vals(shares@),
                (secret.ival() - sum_vals(shares@)) % q,
                q,
            );
            lemma_mod_twice(secret.ival() - sum_vals(shares@), q);
            vstd::arithmetic::div_mod::lemma_add_mod_noop_right(
                sum_vals(shares@),
                secret.ival() - sum_vals(shares@),
                q,
            );
        }
        shares.push(last);
        shares
    }

    /// Sum the shares and reduce modulo 2^e.
    pub fn reveal_shares(shares: &Vec<RingElement>, ring_exponent: usize) -> (r: RingElement)
        requires
            ring_exponent <= 192,
        ensures
            r.val() as int == reveal_val(shares@, ring_exponent as nat),
            r.val() < pow2(ring_exponent as nat),
    {
        let e = ring_exponent;
        let ghost q = pow2(e as nat) as int;
        proof {
            lemma_pow2_pos(e as nat);
            lemma_small_mod(0, pow2(e as nat));
        }
        let mut acc = RingElement::zero();
        let mut i: usize = 0;
        while i < shares.len()
            invariant
                i <= shares@.len(),
                ring_exponent <= 192,
                e == ring_exponent,
                q == pow2(e as nat) as int,
                q > 0,
                acc.val() as int == sum_vals(shares@.take(i as int)) % q,
            decreases shares@.len() - i,
        {
            let s = shares[i];
            let new_acc = acc.add_mod(s, e);
            proof {
                lemma_sum_take_step(shares@, i as int);
                lemma_mod_twice(sum_vals(shares@.take(i as int)), q);
                lemma_mod_add_combine(
                    acc.val() as int,
                    s.val() as int,
                    sum_vals(shares@.take(i as int)),
                    s.val() as int,
                    q,
                );
            }
            acc = new_acc;
            i = i + 1;
        }
        proof {
            lemma_sum_take_all(shares@);
            lemma_mod_bound(sum_vals(shares@), q);
        }
        acc
    }

    /// Pointwise difference of two share vectors: a sharing of the
    /// difference of the shared secrets.
    pub fn sub(a: &Vec<RingElement>, b: &Vec<RingElement>, ring_exponent: usize) -> (r: Vec<
        RingElement,
    >)
        requires
            a@.len() == b@.len(),
            ring_exponent <= 192,
        ensures
            r@.len() == a@.len(),
            forall|i: int| 0 <= i < r@.len() ==> (#[trigger] r@[i]).val() as int == (a@[i].val()
                - b@[i].val()) % (pow2(ring_exponent as nat) as int),
            sum_vals(r@) % (pow2(ring_exponent as nat) as int) == (sum_vals(a@) - sum_vals(b@)) % (
            pow2(ring_exponent as nat) as int),
    {
        let e = ring_exponent;
        let ghost q = pow2(e as nat) as int;
        proof {
            lemma_pow2_pos(e as nat);
            lemma_small_mod(0, pow2(e as nat));
        }
        let mut r: Vec<RingElement> = Vec::new();
        let mut i: usize = 0;
        while i < a.len()
            invariant
                i <= a@.len(),
                a@.len() == b@.len(),
                ring_exponent <= 192,
                e == ring_exponent,
                q == pow2(e as nat) as int,
                q > 0,
                r@.len() == i,
                forall|j: int| 0 <= j < r@.len() ==> (#[trigger] r@[j]).val() as int == (a@[j].val()
                    - b@[j].val()) % q,
                sum_vals(r@) % q == (sum_vals(a@.take(i as int)) - sum_vals(b@.take(i as int))) % q,
            decreases a@.len() - i,
        {
            let d = a[i].sub_mod(b[i], e);
            proof {
                lemma_sum_push(r@, d);
                lemma_sum_take_step(a@, i as int);
                lemma_sum_take_step(b@, i as int);
                lemma_mod_twice(a@[i as int].val() - b@[i as int].val(), q);
                lemma_mod_add_combine(
                    sum_vals(r@),
                    d.val() as int,
                    sum_vals(a@.take(i as int)) - sum_vals(b@.take(i as int)),
                    a@[i as int].val() - b@[i as int].val(),
                    q,
                );
            }
            r.push(d);
            i = i + 1;
        }
        proof {
            lemma_sum_take_all(a@);
            lemma_sum_take_all(b@);
        }
        r
    }
}

} // verus!
