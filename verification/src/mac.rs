//! The information-theoretic MAC scheme: every opened value x is
//! authenticated as alpha*x in the larger ring 2^(k+s), and a random
//! challenge combines a whole batch into a single check.

use vstd::prelude::*;

verus! {

use vstd::arithmetic::power2::{pow2, lemma_pow2_pos, lemma_pow2_adds};
use vstd::arithmetic::div_mod::{
    lemma_small_mod, lemma_mod_bound, lemma_mod_twice, lemma_mod_mod, lemma_mod_multiples_vanish,
};
use vstd::arithmetic::mul::lemma_mul_is_distributive_add_other_way;
use crate::ring::{
    RingElement, SignedElement, random_below_pow2, lemma_mod_add_combine, lemma_mod_sub_combine,
    lemma_mod_mul_combine,
};
use crate::sharing::{
    AdditiveSecretSharing, sum_vals, is_sharing_of, lemma_sum_push, lemma_sum_take_step,
    lemma_sum_take_all,
};
use crate::lwe::{dot_vals, dot_mod, lemma_dot_take_step, lemma_dot_take_all};

/// Sizes of the MAC scheme.
#[derive(Debug, Clone, Copy, PartialEq, Eq, Structural)]
pub struct MACSchemeParams {
    /// Number of players.
    pub n: usize,
    /// Smaller ring bits.
    pub k: usize,
    /// Security parameter bits.
    pub s: usize,
    /// Larger ring bits, k + s.
    pub ks: usize,
    /// Number of values opened in one batch.
    pub t: usize,
}

impl MACSchemeParams {
    pub open spec fn wf(self) -> bool {
        &&& self.n >= 1
        &&& self.k < 192
        &&& self.ks == self.k + self.s
        &&& self.ks <= 192
    }

    pub fn init(players_count: usize, ring_bits: usize, security_parameter_bits: usize,
        jobs_per_worker: usize) -> (r: MACSchemeParams)
        requires
            players_count >= 1,
            ring_bits < 192,
            ring_bits + security_parameter_bits <= 192,
        ensures
            r.wf(),
            r.n == players_count,
            r.k == ring_bits,
            r.s == security_parameter_bits,
            r.ks == ring_bits + security_parameter_bits,
            r.t == jobs_per_worker,
    {
        MACSchemeParams {
            n: players_count,
            k: ring_bits,
            s: security_parameter_bits,
            ks: ring_bits + security_parameter_bits,
            t: jobs_per_worker,
        }
    }
}

/// The rows of a vector of vectors, as a sequence of sequences.
pub open spec fn mat_rows(m: Seq<Vec<RingElement>>) -> Seq<Seq<RingElement>> {
    Seq::new(m.len(), |i: int| m[i]@)
}

/// Column j of a matrix held as a sequence of rows.
pub open spec fn mat_column(m: Seq<Seq<RingElement>>, j: int) -> Seq<RingElement> {
    Seq::new(m.len(), |i: int| m[i][j])
}

/// The sum of column j over the first `i` rows.
pub open spec fn col_sum_prefix(m: Seq<Seq<RingElement>>, j: int, i: int) -> int
    decreases i,
{
    if i <= 0 {
        0
    } else {
        col_sum_prefix(m, j, i - 1) + m[i - 1][j].val()
    }
}

/// Sum over the first n "party columns" of the weighted row combinations:
/// sum over i of dot(chi, column i of m).
pub open spec fn sum_dots(chi: Seq<RingElement>, m: Seq<Seq<RingElement>>, n: int) -> int
    decreases n,
{
    if n <= 0 {
        0
    } else {
        sum_dots(chi, m, n - 1) + dot_vals(chi, mat_column(m, n - 1))
    }
}

/// The same total, grouped the other way: sum over j of chi_j times the
/// sum of row j.
pub open spec fn weighted_row_sums(chi: Seq<RingElement>, m: Seq<Seq<RingElement>>) -> int
    decreases m.len(),
{
    if m.len() == 0 || chi.len() == 0 {
        0
    } else {
        weighted_row_sums(chi.drop_last(), m.drop_last()) + chi.last().val() * sum_vals(m.last())
    }
}

proof fn lemma_sum_dots_empty(chi: Seq<RingElement>, m: Seq<Seq<RingElement>>, n: int)
    requires
        chi.len() == 0,
        m.len() == 0,
    ensures
        sum_dots(chi, m, n) == 0,
    decreases n,
{
    if n > 0 {
        lemma_sum_dots_empty(chi, m, n - 1);
        assert(mat_column(m, n - 1).len() == 0);
    }
}

proof fn lemma_sum_dots_peel(chi: Seq<RingElement>, m: Seq<Seq<RingElement>>, n: int)
    requires
        chi.len() == m.len(),
        chi.len() >= 1,
        n >= 0,
        forall|j: int| 0 <= j < m.len() ==> (#[trigger] m[j]).len() >= n,
    ensures
        sum_dots(chi, m, n) == sum_dots(chi.drop_last(), m.drop_last(), n) + chi.last().val()
            * sum_vals(m.last().take(n)),
    decreases n,
{
    if n == 0 {
        assert(sum_vals(m.last().take(0)) == 0);
    } else {
        lemma_sum_dots_peel(chi, m, n - 1);
        // dot over the full column splits off the last row's entry
        assert(mat_column(m, n - 1).drop_last() =~= mat_column(m.drop_last(), n - 1));
        assert(mat_column(m, n - 1).last() == m.last()[n - 1]);
        assert(dot_vals(chi, mat_column(m, n - 1)) == dot_vals(
            chi.drop_last(),
            mat_column(m.drop_last(), n - 1),
        ) + chi.last().val() * m.last()[n - 1].val());
        lemma_sum_take_step(m.last(), n - 1);
        assert(chi.last().val() * sum_vals(m.last().take(n)) == chi.last().val() * sum_vals(
            m.last().take(n - 1),
        ) + chi.last().val() * m.last()[n - 1].val()) by (nonlinear_arith)
            requires
                sum_vals(m.last().take(n)) == sum_vals(m.last().take(n - 1)) + m.last()[n
                    - 1].val(),
        ;
    }
}

/// Exchanging the order of summation: summing each party's weighted
/// combination equals weighting each row's sum.
proof fn lemma_exchange(chi: Seq<RingElement>, m: Seq<Seq<RingElement>>, n: int)
    requires
        chi.len() == m.len(),
        n >= 0,
        forall|j: int| 0 <= j < m.len() ==> (#[trigger] m[j]).len() == n,
    ensures
        sum_dots(chi, m, n) == weighted_row_sums(chi, m),
    decreases m.len(),
{
    if m.len() == 0 {
        lemma_sum_dots_empty(chi, m, n);
    } else {
        lemma_sum_dots_peel(chi, m, n);
        lemma_sum_take_all(m.last());
        lemma_exchange(chi.drop_last(), m.drop_last(), n);
    }
}

/// If every row of m sums (mod q) to alpha times the corresponding opened
/// value, the weighted row sums collapse to alpha times dot(chi, opened).
proof fn lemma_weighted_rows_alpha(
    chi: Seq<RingElement>,
    m: Seq<Seq<RingElement>>,
    xt: Seq<RingElement>,
    alpha: int,
    q: int,
)
    requires
        q > 0,
        chi.len() == m.len(),
        xt.len() == m.len(),
        forall|j: int| 0 <= j < m.len() ==> sum_vals(#[trigger] m[j]) % q == (alpha * xt[j].val())
            % q,
    ensures
        weighted_row_sums(chi, m) % q == (alpha * dot_vals(chi, xt)) % q,
    decreases m.len(),
{
    if m.len() == 0 {
        assert(weighted_row_sums(chi, m) == 0);
        assert(dot_vals(chi, xt) == 0);
        assert(alpha * 0 == 0) by (nonlinear_arith);
    } else {
        lemma_weighted_rows_alpha(chi.drop_last(), m.drop_last(), xt.drop_last(), alpha, q);
        let w0 = weighted_row_sums(chi.drop_last(), m.drop_last());
        let d0 = dot_vals(chi.drop_last(), xt.drop_last());
        // the last term of the weighted sum is congruent to
        // chi_last * (alpha * xt_last)
        lemma_mod_mul_combine(
            chi.last().val() as int,
            sum_vals(m.last()),
            chi.last().val() as int,
            alpha * xt.last().val(),
            q,
        );
        lemma_mod_twice(alpha * d0, q);
        lemma_mod_add_combine(
            w0,
            chi.last().val() * sum_vals(m.last()),
            (alpha * d0) % q,
            chi.last().val() * (alpha * xt.last().val()),
            q,
        );
        // alpha distributes over the last dot step
        assert(alpha * dot_vals(chi, xt) == alpha * d0 + chi.last().val() * (alpha * xt.last().val(
        ))) by (nonlinear_arith)
            requires
                dot_vals(chi, xt) == d0 + chi.last().val() * xt.last().val(),
        ;
        lemma_mod_add_combine(
            (alpha * d0) % q,
            chi.last().val() * (alpha * xt.last().val()),
            alpha * d0,
            chi.last().val() * (alpha * xt.last().val()),
            q,
        );
    }
}

// see: https://eprint.iacr.org/2018/482.pdf - 3. Information-Theoretic MAC Scheme
/// The authenticated sharing scheme: the global key alpha and the ring
/// sizes.  A batch of shared values is opened masked, MACed with alpha,
/// and checked with one random challenge.
#[derive(Debug, Clone)]
pub struct AuthenticatedSharingScheme {
    pub params: MACSchemeParams,
    /// The global MAC key.
    pub alpha: RingElement,
}

impl AuthenticatedSharingScheme {
    pub fn new(global_key_share: RingElement, params: MACSchemeParams) -> (r:
        AuthenticatedSharingScheme)
        ensures
            r.params == params,
            r.alpha == global_key_share,
    {
        AuthenticatedSharingScheme { params, alpha: global_key_share }
    }

    /// Share the global key additively in the large ring.
    pub fn share_global_key(&self) -> (r: Vec<RingElement>)
        requires
            self.params.wf(),
        ensures
            is_sharing_of(r@, self.alpha.val() as int, self.params.n as int, self.params.ks as nat),
    {
        AdditiveSecretSharing::share(
            &SignedElement::from_element(self.alpha),
            self.params.n,
            self.params.ks,
        )
    }

    /// Open a batch of t shared values, masked by fresh randomness in the
    /// high s bits, together with each party's MAC share of every value.
    ///
    /// The input holds one row per party; row i, entry j is party i's
    /// share of value j.  The first output is the masked opened value of
    /// each column; it agrees with the column's share sum modulo 2^k.
    /// The second output holds, for each value j, the n MAC shares; their
    /// sum is alpha times the opened value, modulo 2^(k+s).
    pub fn batch_open(&self, x_shares_collection: &Vec<Vec<RingElement>>) -> (r: (Vec<RingElement>,
        Vec<Vec<RingElement>>))
        requires
            self.params.wf(),
            x_shares_collection@.len() == self.params.n,
            forall|i: int| 0 <= i < x_shares_collection@.len() ==> (
            #[trigger] x_shares_collection@[i])@.len() == x_shares_collection@[0]@.len(),
        ensures
            r.0@.len() == x_shares_collection@[0]@.len(),
            r.1@.len() == x_shares_collection@[0]@.len(),
            forall|j: int| 0 <= j < r.1@.len() ==> (#[trigger] r.1@[j])@.len() == self.params.n,
            forall|j: int| 0 <= j < r.0@.len() ==> (#[trigger] r.0@[j]).val() < pow2(
                self.params.ks as nat,
            ),
            forall|j: int| 0 <= j < r.0@.len() ==> (#[trigger] r.0@[j]).val() as int % (pow2(
                self.params.k as nat,
            ) as int) == col_sum_prefix(mat_rows(x_shares_collection@), j, self.params.n as int) % (
            pow2(self.params.k as nat) as int),
            forall|j: int| 0 <= j < r.1@.len() ==> sum_vals((#[trigger] r.1@[j])@) % (pow2(
                self.params.ks as nat,
            ) as int) == (self.alpha.val() * r.0@[j].val()) as int % (pow2(self.params.ks as nat) as int),
            forall|j: int, i: int|
                0 <= j < r.1@.len() && 0 <= i < r.1@[j]@.len() ==> (#[trigger] r.1@[j]@[i]).val()
                    < pow2(self.params.ks as nat),
    {
        let n = self.params.n;
        let ks = self.params.ks;
        let k = self.params.k;
        let t = x_shares_collection[0].len();
        let ghost q = pow2(ks as nat) as int;
        let ghost qk = pow2(k as nat) as int;
        let ghost xm = mat_rows(x_shares_collection@);
        proof {
            lemma_pow2_pos(ks as nat);
            lemma_pow2_pos(k as nat);
            lemma_pow2_pos(self.params.s as nat);
            lemma_pow2_adds(k as nat, self.params.s as nat);
        }
        let shift = RingElement::pow2_elem(k);
        let mut opened: Vec<RingElement> = Vec::new();
        let mut macs: Vec<Vec<RingElement>> = Vec::new();
        let mut j: usize = 0;
        while j < t
            invariant
                j <= t,
                self.params.wf(),
                n == self.params.n,
                ks == self.params.ks,
                k == self.params.k,
                q == pow2(ks as nat) as int,
                qk == pow2(k as nat) as int,
                q > 0,
                qk > 0,
                shift.val() == pow2(k as nat),
                xm == mat_rows(x_shares_collection@),
                x_shares_collection@.len() == n,
                forall|i: int| 0 <= i < x_shares_collection@.len() ==> (
                #[trigger] x_shares_collection@[i])@.len() == t,
                opened@.len() == j,
                macs@.len() == j,
                forall|j2: int| 0 <= j2 < j ==> (#[trigger] macs@[j2])@.len() == n,
                forall|j2: int| 0 <= j2 < j ==> (#[trigger] opened@[j2]).val() < pow2(ks as nat),
                forall|j2: int| 0 <= j2 < j ==> (#[trigger] opened@[j2]).val() as int % qk
                    == col_sum_prefix(xm, j2, n as int) % qk,
                forall|j2: int| 0 <= j2 < j ==> sum_vals((#[trigger] macs@[j2])@) % q == (
                self.alpha.val() * opened@[j2].val()) as int % q,
                forall|j2: int, i3: int|
                    0 <= j2 < j && 0 <= i3 < macs@[j2]@.len() ==> (#[trigger] macs@[j2]@[i3]).val()
                        < pow2(ks as nat),
            decreases t - j,
        {
            let mask = random_below_pow2(self.params.s);
            let mask_shares = AdditiveSecretSharing::share(
                &SignedElement::from_element(mask),
                n,
                self.params.s,
            );
            // the masked shares of column j: x_ij + 2^k * r_ij
            let mut cvec: Vec<RingElement> = Vec::new();
            let mut i: usize = 0;
            proof {
                lemma_small_mod(0, pow2(ks as nat));
            }
            while i < n
                invariant
                    i <= n,
                    n == self.params.n,
                    ks == self.params.ks,
                    k == self.params.k,
                    ks <= 192,
                    q == pow2(ks as nat) as int,
                    q > 0,
                    shift.val() == pow2(k as nat),
                    j < t,
                    xm == mat_rows(x_shares_collection@),
                    x_shares_collection@.len() == n,
                    forall|i2: int| 0 <= i2 < x_shares_collection@.len() ==> (
                    #[trigger] x_shares_collection@[i2])@.len() == t,
                    mask_shares@.len() == n,
                    cvec@.len() == i,
                    forall|i2: int| 0 <= i2 < cvec@.len() ==> (#[trigger] cvec@[i2]).val() < pow2(
                        ks as nat,
                    ),
                    sum_vals(cvec@) % q == (col_sum_prefix(xm, j as int, i as int) + pow2(
                        k as nat,
                    ) * sum_vals(mask_shares@.take(i as int))) % q,
                decreases n - i,
            {
                let masked = x_shares_collection[i][j].add_mod(
                    shift.mul_mod(mask_shares[i], ks),
                    ks,
                );
                proof {
                    let xi = x_shares_collection@[i as int]@[j as int].val() as int;
                    let ri = mask_shares@[i as int].val() as int;
                    let pk = pow2(k as nat) as int;
                    // masked == x_ij + 2^k r_i  (mod q)
                    lemma_mod_twice(pk * ri, q);
                    lemma_mod_add_combine(xi, (pk * ri) % q, xi, pk * ri, q);
                    lemma_sum_push(cvec@, masked);
                    lemma_sum_take_step(mask_shares@, i as int);
                    lemma_mod_twice(xi + pk * ri, q);
                    lemma_mod_add_combine(
                        sum_vals(cvec@),
                        masked.val() as int,
                        col_sum_prefix(xm, j as int, i as int) + pk * sum_vals(
                            mask_shares@.take(i as int),
                        ),
                        xi + pk * ri,
                        q,
                    );
                    // 2^k distributes over the growing mask sum
                    vstd::arithmetic::mul::lemma_mul_is_distributive_add(
                        pk,
                        sum_vals(mask_shares@.take(i as int)) as int,
                        ri,
                    );
                    assert(xm[i as int][j as int].val() as int == xi);
                }
                cvec.push(masked);
                i = i + 1;
            }
            let x_tilde = AdditiveSecretSharing::reveal_shares(&cvec, ks);
            proof {
                lemma_pow2_adds(k as nat, self.params.s as nat);
                lemma_pow2_pos(self.params.s as nat);
                lemma_sum_take_all(mask_shares@);
                let pk = pow2(k as nat) as int;
                let cp = col_sum_prefix(xm, j as int, n as int);
                let rr = sum_vals(mask_shares@);
                // reduce the opened value to the small ring: the mask drops out
                lemma_mod_mod(cp + pk * rr, qk, pow2(self.params.s as nat) as int);
                lemma_mod_multiples_vanish(rr, cp, pk);
                assert(x_tilde.val() as int % qk == cp % qk) by {
                    assert(x_tilde.val() as int == (cp + pk * rr) % q);
                    assert(q == qk * pow2(self.params.s as nat));
                    assert((cp + pk * rr) % qk == (pk * rr + cp) % qk);
                }
            }
            // each party's MAC share of the opened value
            let mut mcol: Vec<RingElement> = Vec::new();
            let mut i2: usize = 0;
            proof {
                lemma_small_mod(0, pow2(ks as nat));
            }
            while i2 < n
                invariant
                    i2 <= n,
                    n == self.params.n,
                    ks == self.params.ks,
                    ks <= 192,
                    q == pow2(ks as nat) as int,
                    q > 0,
                    cvec@.len() == n,
                    mcol@.len() == i2,
                    forall|i3: int| 0 <= i3 < mcol@.len() ==> (#[trigger] mcol@[i3]).val() < pow2(
                        ks as nat,
                    ),
                    sum_vals(mcol@) % q == (self.alpha.val() * sum_vals(cvec@.take(i2 as int)))
                        % q,
                decreases n - i2,
            {
                let mac = self.alpha.mul_mod(cvec[i2], ks);
                proof {
                    let av = self.alpha.val() as int;
                    let ci = cvec@[i2 as int].val() as int;
                    lemma_mod_bound((self.alpha.val() * cvec@[i2 as int].val()) as int, q);
                    lemma_sum_push(mcol@, mac);
                    lemma_sum_take_step(cvec@, i2 as int);
                    lemma_mod_twice(av * ci, q);
                    lemma_mod_add_combine(
                        sum_vals(mcol@),
                        mac.val() as int,
                        av * sum_vals(cvec@.take(i2 as int)),
                        av * ci,
                        q,
                    );
                    vstd::arithmetic::mul::lemma_mul_is_distributive_add(
                        av,
                        sum_vals(cvec@.take(i2 as int)) as int,
                        ci,
                    );
                    assert(av * (sum_vals(cvec@.take(i2 as int)) + ci) == av * sum_vals(
                        cvec@.take(i2 as int),
                    ) + av * ci);
                }
                mcol.push(mac);
                i2 = i2 + 1;
            }
            proof {
                lemma_sum_take_all(cvec@);
                // the MAC shares sum to alpha times the opened value
                lemma_mod_twice(sum_vals(cvec@), q);
                lemma_mod_mul_combine(
                    self.alpha.val() as int,
                    sum_vals(cvec@),
                    self.alpha.val() as int,
                    x_tilde.val() as int,
                    q,
                );
            }
            opened.push(x_tilde);
            macs.push(mcol);
            j = j + 1;
        }
        (opened, macs)
    }

    /// Check a batch of opened values against the MAC shares using a
    /// fresh random challenge.  When the inputs are consistent with the
    /// key (the key shares sum to alpha and each value's MAC shares sum
    /// to alpha times the value), the check accepts whatever challenge
    /// was drawn, and returns every value reduced to the small ring.
    pub fn batch_check(&self, x_tilde_shares: &Vec<RingElement>, global_key_shares: &Vec<
        RingElement,
    >, m_tilde_collection: &Vec<Vec<RingElement>>) -> (r: Option<Vec<RingElement>>)
        requires
            self.params.wf(),
            global_key_shares@.len() == self.params.n,
            m_tilde_collection@.len() == x_tilde_shares@.len(),
            forall|j: int| 0 <= j < m_tilde_collection@.len() ==> (
            #[trigger] m_tilde_collection@[j])@.len() == self.params.n,
        ensures
            r.is_some() ==> {
                &&& r.unwrap()@.len() == x_tilde_shares@.len()
                &&& forall|j: int| 0 <= j < x_tilde_shares@.len() ==> (#[trigger] r.unwrap()@[j]).val()
                    == x_tilde_shares@[j].val() % pow2(self.params.k as nat)
            },
            (sum_vals(global_key_shares@) % (pow2(self.params.ks as nat) as int)
                == self.alpha.val() as int % (pow2(self.params.ks as nat) as int) && (forall|j: int|
                0 <= j < m_tilde_collection@.len() ==> sum_vals(
                    (#[trigger] m_tilde_collection@[j])@,
                ) % (pow2(self.params.ks as nat) as int) == (self.alpha.val()
                    * x_tilde_shares@[j].val()) as int % (pow2(self.params.ks as nat) as int)))
                ==> r.is_some(),
    {
        let n = self.params.n;
        let ks = self.params.ks;
        let t = x_tilde_shares.len();
        let ghost q = pow2(ks as nat) as int;
        let ghost mm = mat_rows(m_tilde_collection@);
        proof {
            lemma_pow2_pos(ks as nat);
            lemma_small_mod(0, pow2(ks as nat));
        }
        // the public random challenge
        let mut chi_vals: Vec<RingElement> = Vec::new();
        let mut j: usize = 0;
        while j < t
            invariant
                j <= t,
                self.params.s <= 192,
                chi_vals@.len() == j,
            decreases t - j,
        {
            chi_vals.push(random_below_pow2(self.params.s));
            j = j + 1;
        }
        let y_tilde = dot_mod(&chi_vals, x_tilde_shares, ks);
        // each party's check share, and their running sum
        let mut zsum = RingElement::zero();
        let mut i: usize = 0;
        while i < n
            invariant
                i <= n,
                n == self.params.n,
                ks == self.params.ks,
                ks <= 192,
                q == pow2(ks as nat) as int,
                q > 0,
                chi_vals@.len() == t,
                x_tilde_shares@.len() == t,
                m_tilde_collection@.len() == t,
                mm == mat_rows(m_tilde_collection@),
                forall|j2: int| 0 <= j2 < m_tilde_collection@.len() ==> (
                #[trigger] m_tilde_collection@[j2])@.len() == n,
                global_key_shares@.len() == n,
                zsum.val() as int % q == (sum_dots(chi_vals@, mm, i as int) - sum_vals(
                    global_key_shares@.take(i as int),
                ) * y_tilde.val()) % q,
                zsum.val() < pow2(ks as nat),
            decreases n - i,
        {
            // c_i = <chi, column i of the MAC shares>
            let mut ci = RingElement::zero();
            let mut j2: usize = 0;
            proof {
                lemma_small_mod(0, pow2(ks as nat));
            }
            while j2 < t
                invariant
                    j2 <= t,
                    i < n,
                    ks <= 192,
                    q == pow2(ks as nat) as int,
                    q > 0,
                    chi_vals@.len() == t,
                    m_tilde_collection@.len() == t,
                    mm == mat_rows(m_tilde_collection@),
                    forall|j3: int| 0 <= j3 < m_tilde_collection@.len() ==> (
                    #[trigger] m_tilde_collection@[j3])@.len() == n,
                    ci.val() as int % q == dot_vals(
                        chi_vals@.take(j2 as int),
                        mat_column(mm, i as int).take(j2 as int),
                    ) % q,
                    ci.val() < pow2(ks as nat),
                decreases t - j2,
            {
                let term = chi_vals[j2].mul_mod(m_tilde_collection[j2][i], ks);
                let new_ci = ci.add_mod(term, ks);
                proof {
                    vstd::arithmetic::div_mod::lemma_mod_bound(
                        (ci.val() + term.val()) as int,
                        q,
                    );
                    lemma_mod_twice((ci.val() + term.val()) as int, q);
                    lemma_dot_take_step(chi_vals@, mat_column(mm, i as int), j2 as int);
                    lemma_mod_twice(ci.val() as int, q);
                    let cj = chi_vals@[j2 as int].val() as int;
                    let mv = m_tilde_collection@[j2 as int]@[i as int].val() as int;
                    assert(mat_column(mm, i as int)[j2 as int].val() as int == mv);
                    lemma_mod_twice(cj * mv, q);
                    lemma_mod_add_combine(
                        ci.val() as int,
                        term.val() as int,
                        dot_vals(
                            chi_vals@.take(j2 as int),
                            mat_column(mm, i as int).take(j2 as int),
                        ),
                        cj * mv,
                        q,
                    );
                }
                ci = new_ci;
                j2 = j2 + 1;
            }
            let zi = ci.sub_mod(global_key_shares[i].mul_mod(y_tilde, ks), ks);
            let new_zsum = zsum.add_mod(zi, ks);
            proof {
                vstd::arithmetic::div_mod::lemma_mod_bound(
                    (zsum.val() + zi.val()) as int,
                    q,
                );
                lemma_mod_twice((zsum.val() + zi.val()) as int, q);
                assert(chi_vals@.take(t as int) =~= chi_vals@);
                assert(mat_column(mm, i as int).take(t as int) =~= mat_column(mm, i as int));
                let gi = global_key_shares@[i as int].val() as int;
                let yv = y_tilde.val() as int;
                let di = dot_vals(chi_vals@, mat_column(mm, i as int));
                // z_i == d_i - g_i * y  (mod q)
                lemma_mod_twice(ci.val() as int, q);
                lemma_mod_twice(gi * yv, q);
                lemma_mod_sub_combine(ci.val() as int, (gi * yv) % q, di, gi * yv, q);
                // extend the running total
                lemma_sum_take_step(global_key_shares@, i as int);
                lemma_mod_twice(zsum.val() as int, q);
                lemma_mod_twice(di - gi * yv, q);
                lemma_mod_add_combine(
                    zsum.val() as int,
                    zi.val() as int,
                    sum_dots(chi_vals@, mm, i as int) - sum_vals(
                        global_key_shares@.take(i as int),
                    ) * yv,
                    di - gi * yv,
                    q,
                );
                lemma_mul_is_distributive_add_other_way(
                    yv,
                    sum_vals(global_key_shares@.take(i as int)) as int,
                    gi,
                );
                assert((sum_vals(global_key_shares@.take(i as int)) + gi) * yv == sum_vals(
                    global_key_shares@.take(i as int),
                ) * yv + gi * yv);
            }
            zsum = new_zsum;
            i = i + 1;
        }
        proof {
            // under consistent inputs the total vanishes, whatever chi is
            if sum_vals(global_key_shares@) % q == self.alpha.val() as int % q && (forall|j3: int|
                0 <= j3 < m_tilde_collection@.len() ==> sum_vals((#[trigger] m_tilde_collection@[j3])@)
                    % q == (self.alpha.val() * x_tilde_shares@[j3].val()) as int % q) {
                let av = self.alpha.val() as int;
                let yv = y_tilde.val() as int;
                assert(forall|j3: int| 0 <= j3 < mm.len() ==> sum_vals(#[trigger] mm[j3]) % q == (av
                    * x_tilde_shares@[j3].val()) % q);
                lemma_exchange(chi_vals@, mm, n as int);
                lemma_weighted_rows_alpha(chi_vals@, mm, x_tilde_shares@, av, q);
                lemma_sum_take_all(global_key_shares@);
                // sum of the alpha shares times y equals alpha times y
                lemma_mod_mul_combine(
                    sum_vals(global_key_shares@),
                    yv,
                    av,
                    yv,
                    q,
                );
                // alpha * y == alpha * dot(chi, x~)  (mod q)
                lemma_mod_twice(dot_vals(chi_vals@, x_tilde_shares@), q);
                lemma_mod_mul_combine(
                    av,
                    yv,
                    av,
                    dot_vals(chi_vals@, x_tilde_shares@),
                    q,
                );
                lemma_mod_sub_combine(
                    sum_dots(chi_vals@, mm, n as int),
                    sum_vals(global_key_shares@) * yv,
                    av * dot_vals(chi_vals@, x_tilde_shares@),
                    av * dot_vals(chi_vals@, x_tilde_shares@),
                    q,
                );
                assert(zsum.val() as int % q == 0int % q);
                lemma_small_mod(zsum.val(), pow2(ks as nat));
                assert(zsum.val() == 0);
            }
        }
        if zsum.is_zero() {
            let mut values: Vec<RingElement> = Vec::new();
            let mut j3: usize = 0;
            while j3 < t
                invariant
                    j3 <= t,
                    x_tilde_shares@.len() == t,
                    self.params.wf(),
                    values@.len() == j3,
                    forall|j4: int| 0 <= j4 < j3 ==> (#[trigger] values@[j4]).val()
                        == x_tilde_shares@[j4].val() % pow2(self.params.k as nat),
                decreases t - j3,
            {
                values.push(x_tilde_shares[j3].reduce(self.params.k));
                j3 = j3 + 1;
            }
            Some(values)
        } else {
            None
        }
    }

    /// The degenerate one-value form of `batch_open`: mask a single
    /// shared value with fresh randomness in the high s bits.
    pub fn single_open(&self, x_shares: &Vec<RingElement>) -> (r: Vec<RingElement>)
        requires
            self.params.wf(),
            x_shares@.len() == self.params.n,
        ensures
            r@.len() == self.params.n,
            forall|i: int| 0 <= i < r@.len() ==> (#[trigger] r@[i]).val() < pow2(
                self.params.ks as nat,
            ),
            sum_vals(r@) % (pow2(self.params.k as nat) as int) == sum_vals(x_shares@) % (pow2(
                self.params.k as nat,
            ) as int),
    {
        let n = self.params.n;
        let ks = self.params.ks;
        let k = self.params.k;
        let ghost q = pow2(ks as nat) as int;
        let ghost qk = pow2(k as nat) as int;
        proof {
            lemma_pow2_pos(ks as nat);
            lemma_pow2_pos(k as nat);
            lemma_pow2_adds(k as nat, self.params.s as nat);
            lemma_small_mod(0, pow2(ks as nat));
        }
        let mask = random_below_pow2(self.params.s);
        let mask_shares = AdditiveSecretSharing::share(
            &SignedElement::from_element(mask),
            n,
            self.params.s,
        );
        let shift = RingElement::pow2_elem(k);
        let mut r: Vec<RingElement> = Vec::new();
        let mut i: usize = 0;
        while i < n
            invariant
                i <= n,
                n == self.params.n,
                ks == self.params.ks,
                k == self.params.k,
                ks <= 192,
                q == pow2(ks as nat) as int,
                q > 0,
                shift.val() == pow2(k as nat),
                x_shares@.len() == n,
                mask_shares@.len() == n,
                r@.len() == i,
                forall|i2: int| 0 <= i2 < r@.len() ==> (#[trigger] r@[i2]).val() < pow2(ks as nat),
                sum_vals(r@) % q == (sum_vals(x_shares@.take(i as int)) + pow2(k as nat) * sum_vals(
                    mask_shares@.take(i as int),
                )) % q,
            decreases n - i,
        {
            let mterm = shift.mul_mod(mask_shares[i], ks);
            let masked = x_shares[i].add_mod(mterm, ks);
            proof {
                let xi = x_shares@[i as int].val() as int;
                let ri = mask_shares@[i as int].val() as int;
                let pk = pow2(k as nat) as int;
                vstd::arithmetic::div_mod::lemma_mod_bound((xi + mterm.val()) as int, q);
                lemma_mod_twice(pk * ri, q);
                lemma_mod_add_combine(xi, (pk * ri) % q, xi, pk * ri, q);
                lemma_sum_push(r@, masked);
                lemma_sum_take_step(x_shares@, i as int);
                lemma_sum_take_step(mask_shares@, i as int);
                lemma_mod_twice(xi + pk * ri, q);
                lemma_mod_add_combine(
                    sum_vals(r@),
                    masked.val() as int,
                    sum_vals(x_shares@.take(i as int)) + pk * sum_vals(
                        mask_shares@.take(i as int),
                    ),
                    xi + pk * ri,
                    q,
                );
                vstd::arithmetic::mul::lemma_mul_is_distributive_add(
                    pk,
                    sum_vals(mask_shares@.take(i as int)) as int,
                    ri,
                );
            }
            r.push(masked);
            i = i + 1;
        }
        proof {
            lemma_sum_take_all(x_shares@);
            lemma_sum_take_all(mask_shares@);
            let pk = pow2(k as nat) as int;
            let sx = sum_vals(x_shares@);
            let rr = sum_vals(mask_shares@);
            lemma_mod_mod(sx + pk * rr, qk, pow2(self.params.s as nat) as int);
            lemma_mod_mod(sum_vals(r@), qk, pow2(self.params.s as nat) as int);
            lemma_mod_multiples_vanish(rr, sx, pk);
            assert((sx + pk * rr) % qk == (pk * rr + sx) % qk);
            assert(q == qk * (pow2(self.params.s as nat) as int));
        }
        r
    }

    /// The degenerate one-value check: accept when the key shares are
    /// consistent with alpha, and return the value in the small ring.
    pub fn single_check(&self, y: &RingElement, alpha_shares: &Vec<RingElement>) -> (r: Option<
        RingElement,
    >)
        requires
            self.params.wf(),
            alpha_shares@.len() == self.params.n,
        ensures
            r.is_some() ==> r.unwrap().val() == y.val() % pow2(self.params.k as nat),
            sum_vals(alpha_shares@) % (pow2(self.params.ks as nat) as int) == self.alpha.val() as int
                % (pow2(self.params.ks as nat) as int) ==> r.is_some(),
    {
        let n = self.params.n;
        let ks = self.params.ks;
        let ghost q = pow2(ks as nat) as int;
        proof {
            lemma_pow2_pos(ks as nat);
            lemma_small_mod(0, pow2(ks as nat));
        }
        let y_mac = self.alpha.mul_mod(*y, ks);
        let y_mac_shares = AdditiveSecretSharing::share(
            &SignedElement::from_element(y_mac),
            n,
            ks,
        );
        let mut zsum = RingElement::zero();
        let mut i: usize = 0;
        while i < n
            invariant
                i <= n,
                n == self.params.n,
                ks == self.params.ks,
                ks <= 192,
                q == pow2(ks as nat) as int,
                q > 0,
                y_mac_shares@.len() == n,
                alpha_shares@.len() == n,
                zsum.val() as int % q == (sum_vals(y_mac_shares@.take(i as int)) - sum_vals(
                    alpha_shares@.take(i as int),
                ) * y.val()) % q,
                zsum.val() < pow2(ks as nat),
            decreases n - i,
        {
            let zi = y_mac_shares[i].sub_mod(alpha_shares[i].mul_mod(*y, ks), ks);
            let new_zsum = zsum.add_mod(zi, ks);
            proof {
                vstd::arithmetic::div_mod::lemma_mod_bound(
                    (zsum.val() + zi.val()) as int,
                    q,
                );
                lemma_mod_twice((zsum.val() + zi.val()) as int, q);
                let mi = y_mac_shares@[i as int].val() as int;
                let gi = alpha_shares@[i as int].val() as int;
                let yv = y.val() as int;
                lemma_mod_twice(gi * yv, q);
                lemma_mod_sub_combine(mi, (gi * yv) % q, mi, gi * yv, q);
                lemma_sum_take_step(y_mac_shares@, i as int);
                lemma_sum_take_step(alpha_shares@, i as int);
                lemma_mod_twice(zsum.val() as int, q);
                lemma_mod_twice(mi - gi * yv, q);
                lemma_mod_add_combine(
                    zsum.val() as int,
                    zi.val() as int,
                    sum_vals(y_mac_shares@.take(i as int)) - sum_vals(
                        alpha_shares@.take(i as int),
                    ) * yv,
                    mi - gi * yv,
                    q,
                );
                lemma_mul_is_distributive_add_other_way(
                    yv,
                    sum_vals(alpha_shares@.take(i as int)) as int,
                    gi,
                );
            }
            zsum = new_zsum;
            i = i + 1;
        }
        proof {
            if sum_vals(alpha_shares@) % q == self.alpha.val() as int % q {
                lemma_sum_take_all(y_mac_shares@);
                lemma_sum_take_all(alpha_shares@);
                let av = self.alpha.val() as int;
                let yv = y.val() as int;
                // the MAC shares sum to alpha*y, the key shares to alpha
                lemma_mod_mul_combine(sum_vals(alpha_shares@), yv, av, yv, q);
                lemma_mod_twice(av * yv, q);
                lemma_mod_sub_combine(
                    sum_vals(y_mac_shares@),
                    sum_vals(alpha_shares@) * yv,
                    av * yv,
                    av * yv,
                    q,
                );
                assert(zsum.val() as int % q == 0int % q);
                lemma_small_mod(zsum.val(), pow2(ks as nat));
            }
        }
        if zsum.is_zero() {
            Some(y.reduce(self.params.k))
        } else {
            None
        }
    }
}

} // verus!
