//! The envelope exchanged between parties, and the worker that buffers a
//! round's messages until all peers have spoken.

use vstd::prelude::*;

verus! {

use crate::ring::RingElement;
use crate::params::PublicParameters;
use crate::party::Party;
use crate::preprocessing::PreprocessedShare;

/// Number of protocol steps a job passes through.
pub const STEP_COUNT: usize = 5;

/// One message between parties; only the fields of the current round are
/// filled.
#[derive(Debug, Clone)]
pub struct ProtocolTransferredData {
    pub preprocessed: Option<PreprocessedShare>,
    pub a: Option<Vec<RingElement>>,
    pub b: Option<RingElement>,
    pub z_prime: Option<RingElement>,
    pub y_prime: Option<RingElement>,
    pub o_prime: Option<RingElement>,
    pub mac_alpha: Option<RingElement>,
    pub mac_r: Option<Vec<RingElement>>,
    pub mac_chi_vals: Option<Vec<RingElement>>,
    pub mac_z: Option<RingElement>,
}

impl ProtocolTransferredData {
    /// The empty envelope: no field carries a value.
    pub fn empty() -> (r: ProtocolTransferredData)
        ensures
            r.preprocessed.is_none(),
            r.a.is_none(),
            r.b.is_none(),
            r.z_prime.is_none(),
            r.y_prime.is_none(),
            r.o_prime.is_none(),
            r.mac_alpha.is_none(),
            r.mac_r.is_none(),
            r.mac_chi_vals.is_none(),
            r.mac_z.is_none(),
    {
        ProtocolTransferredData {
            preprocessed: None,
            a: None,
            b: None,
            z_prime: None,
            y_prime: None,
            o_prime: None,
            mac_alpha: None,
            mac_r: None,
            mac_chi_vals: None,
            mac_z: None,
        }
    }
}

/// What one protocol step produced for the caller.
pub enum ExecutionResult<T> {
    /// Not every peer has delivered this round's message yet.
    NoReady,
    /// The round ran; here is the next step number and what to send.
    NextStep(T),
    /// The last round ran; nothing further is owed.
    Finished,
}

/// A worker drives several independent decryptions (one `Party` each)
/// through the rounds, buffering the messages that arrive early.
pub struct Worker {
    /// Messages received per (step, sender), in arrival order.
    pub steps_bulk_data: Vec<((usize, usize), Vec<ProtocolTransferredData>)>,
    pub params: PublicParameters,
    /// One party state per ciphertext being decrypted.
    pub mpc_decryptions: Vec<Party>,
    pub ctxt_per_job: usize,
    pub id: usize,
}

/// How many buffered entries belong to the given step.
pub open spec fn count_for_step(
    entries: Seq<((usize, usize), Vec<ProtocolTransferredData>)>,
    step: usize,
) -> int
    decreases entries.len(),
{
    if entries.len() == 0 {
        0
    } else {
        count_for_step(entries.drop_last(), step) + if entries.last().0.0 == step {
            1int
        } else {
            0int
        }
    }
}

impl Worker {
    pub fn new(id: usize, params: PublicParameters, ctxt_per_job: usize) -> (r: Worker)
        ensures
            r.id == id,
            r.params == params,
            r.ctxt_per_job == ctxt_per_job,
            r.mpc_decryptions@.len() == ctxt_per_job,
            r.steps_bulk_data@.len() == 0,
    {
        let mut mpc_decryptions: Vec<Party> = Vec::new();
        let mut i: usize = 0;
        while i < ctxt_per_job
            invariant
                i <= ctxt_per_job,
                mpc_decryptions@.len() == i,
            decreases ctxt_per_job - i,
        {
            mpc_decryptions.push(Party::new(id, &params));
            i = i + 1;
        }
        Worker { steps_bulk_data: Vec::new(), params, mpc_decryptions, ctxt_per_job, id }
    }

    /// Record a newly arrived bundle, replacing any previous one from the
    /// same sender for the same step.
    pub fn insert_bundle(&mut self, step: usize, sender: usize, data: Vec<
        ProtocolTransferredData,
    >)
        ensures
            final(self).params == old(self).params,
            final(self).ctxt_per_job == old(self).ctxt_per_job,
            final(self).id == old(self).id,
            final(self).mpc_decryptions == old(self).mpc_decryptions,
    {
        let mut i: usize = 0;
        let n = self.steps_bulk_data.len();
        let mut found: usize = n;
        while i < n
            invariant
                i <= n,
                n == self.steps_bulk_data@.len(),
                found <= n,
            decreases n - i,
        {
            if self.steps_bulk_data[i].0.0 == step && self.steps_bulk_data[i].0.1 == sender {
                found = i;
            }
            i = i + 1;
        }
        if found < n {
            self.steps_bulk_data.remove(found);
        }
        self.steps_bulk_data.push(((step, sender), data));
    }

    /// Hand a fresh worker the decoded dealer bundle: every party state
    /// receives the preprocessing slice, the ciphertext and the MAC data.
    pub fn ingest_bundle(&mut self, bundle: &ProtocolTransferredData)
        requires
            bundle.preprocessed.is_some(),
            bundle.a.is_some(),
            bundle.b.is_some(),
            bundle.mac_alpha.is_some(),
            bundle.mac_r.is_some(),
            bundle.mac_chi_vals.is_some(),
        ensures
            final(self).params == old(self).params,
            final(self).ctxt_per_job == old(self).ctxt_per_job,
            final(self).id == old(self).id,
            final(self).steps_bulk_data == old(self).steps_bulk_data,
            final(self).mpc_decryptions@.len() == old(self).mpc_decryptions@.len(),
            forall|i: int| 0 <= i < final(self).mpc_decryptions@.len() ==> {
                let p = #[trigger] final(self).mpc_decryptions@[i];
                let pre = bundle.preprocessed.unwrap();
                &&& p == (crate::party::Party {
                    r: p.r,
                    s: p.s,
                    sk: p.sk,
                    ltz: p.ltz,
                    signs: p.signs,
                    a: p.a,
                    b: p.b,
                    mac_alpha: p.mac_alpha,
                    mac_r: p.mac_r,
                    mac_chi_values: p.mac_chi_values,
                    ..old(self).mpc_decryptions@[i]
                })
                &&& p.r == Some(pre.r)
                &&& p.s == Some(pre.s)
                &&& p.sk.is_some() && p.sk.unwrap()@ == pre.sk@
                &&& p.ltz.is_some() && p.ltz.unwrap()@ == pre.ltz@
                &&& p.signs.is_some() && p.signs.unwrap()@.len() == pre.signs@.len()
                &&& (forall|v: int|
                    0 <= v < p.signs.unwrap()@.len() ==> (#[trigger] p.signs.unwrap()@[v])@
                        == pre.signs@[v]@)
                &&& p.a.is_some() && p.a.unwrap()@ == bundle.a.unwrap()@
                &&& p.b == Some(bundle.b.unwrap())
                &&& p.mac_alpha == Some(bundle.mac_alpha.unwrap())
                &&& p.mac_r.is_some() && p.mac_r.unwrap()@ == bundle.mac_r.unwrap()@
                &&& p.mac_chi_values.is_some() && p.mac_chi_values.unwrap()@
                    == bundle.mac_chi_vals.unwrap()@
            },
    {
        let pre = bundle.preprocessed.as_ref().unwrap();
        let count = self.mpc_decryptions.len();
        let mut i: usize = 0;
        while i < count
            invariant
                i <= count,
                count == self.mpc_decryptions@.len(),
                count == old(self).mpc_decryptions@.len(),
                bundle.preprocessed.is_some(),
                bundle.a.is_some(),
                bundle.b.is_some(),
                bundle.mac_alpha.is_some(),
                bundle.mac_r.is_some(),
                bundle.mac_chi_vals.is_some(),
                pre == bundle.preprocessed.unwrap(),
                self.params == old(self).params,
                self.ctxt_per_job == old(self).ctxt_per_job,
                self.id == old(self).id,
                self.steps_bulk_data == old(self).steps_bulk_data,
                forall|i2: int| i <= i2 < self.mpc_decryptions@.len()
                    ==> #[trigger] self.mpc_decryptions@[i2] == old(self).mpc_decryptions@[i2],
                forall|i2: int| 0 <= i2 < i ==> {
                    let p = #[trigger] self.mpc_decryptions@[i2];
                    &&& p == (crate::party::Party {
                        r: p.r,
                        s: p.s,
                        sk: p.sk,
                        ltz: p.ltz,
                        signs: p.signs,
                        a: p.a,
                        b: p.b,
                        mac_alpha: p.mac_alpha,
                        mac_r: p.mac_r,
                        mac_chi_values: p.mac_chi_values,
                        ..old(self).mpc_decryptions@[i2]
                    })
                    &&& p.r == Some(pre.r)
                    &&& p.s == Some(pre.s)
                    &&& p.sk.is_some() && p.sk.unwrap()@ == pre.sk@
                    &&& p.ltz.is_some() && p.ltz.unwrap()@ == pre.ltz@
                    &&& p.signs.is_some() && p.signs.unwrap()@.len() == pre.signs@.len()
                    &&& (forall|v: int|
                        0 <= v < p.signs.unwrap()@.len() ==> (#[trigger] p.signs.unwrap()@[v])@
                            == pre.signs@[v]@)
                    &&& p.a.is_some() && p.a.unwrap()@ == bundle.a.unwrap()@
                    &&& p.b == Some(bundle.b.unwrap())
                    &&& p.mac_alpha == Some(bundle.mac_alpha.unwrap())
                    &&& p.mac_r.is_some() && p.mac_r.unwrap()@ == bundle.mac_r.unwrap()@
                    &&& p.mac_chi_values.is_some() && p.mac_chi_values.unwrap()@
                        == bundle.mac_chi_vals.unwrap()@
                },
            decreases count - i,
        {
            let mut p = self.mpc_decryptions.remove(i);
            p.set_r(pre.r);
            p.set_s(pre.s);
            p.set_sk(crate::protocol::copy_vec(&pre.sk));
            p.set_ltz(crate::protocol::copy_vec(&pre.ltz));
            p.set_signs(crate::preprocessing::copy_matrix(&pre.signs));
            p.set_a(crate::protocol::copy_vec(bundle.a.as_ref().unwrap()));
            p.set_b(*bundle.b.as_ref().unwrap());
            p.set_mac_alpha(*bundle.mac_alpha.as_ref().unwrap());
            p.set_mac_r(crate::protocol::copy_vec(bundle.mac_r.as_ref().unwrap()));
            p.set_mac_chi_values(crate::protocol::copy_vec(bundle.mac_chi_vals.as_ref().unwrap()));
            self.mpc_decryptions.insert(i, p);
            i = i + 1;
        }
    }

    /// The bundles already collected for one step, in arrival order:
    /// one entry per buffered message of that step.
    pub fn collect_step(&self, step: usize) -> (r: Vec<Vec<ProtocolTransferredData>>)
        ensures
            r@.len() == count_for_step(self.steps_bulk_data@, step),
    {
        let mut r: Vec<Vec<ProtocolTransferredData>> = Vec::new();
        let mut i: usize = 0;
        while i < self.steps_bulk_data.len()
            invariant
                i <= self.steps_bulk_data@.len(),
                r@.len() == count_for_step(self.steps_bulk_data@.take(i as int), step),
            decreases self.steps_bulk_data@.len() - i,
        {
            proof {
                assert(self.steps_bulk_data@.take(i + 1).drop_last()
                    =~= self.steps_bulk_data@.take(i as int));
                assert(self.steps_bulk_data@.take(i + 1).last() == self.steps_bulk_data@[i as int]);
            }
            if self.steps_bulk_data[i].0.0 == step {
                r.push(self.steps_bulk_data[i].1.clone());
            }
            i = i + 1;
        }
        proof {
            assert(self.steps_bulk_data@.take(self.steps_bulk_data@.len() as int)
                =~= self.steps_bulk_data@);
        }
        r
    }
}

/// Buffer a round's message and, once a bundle from every peer is in,
/// run the round on every ciphertext whose state is ready.  A message or
/// party state that fails the round's own validity test is dropped, as a
/// malformed incoming payload would be.  The caller sends the returned
/// envelopes to the peers.
pub fn handle_protocol_execute_step(
    worker_data: &mut Worker,
    job_id: u64,
    my_participant_id: usize,
    received_from_participant: usize,
    step_num: usize,
    input_data: Vec<ProtocolTransferredData>,
) -> (r: ExecutionResult<(usize, Vec<ProtocolTransferredData>)>)
    ensures
        final(worker_data).params == old(worker_data).params,
        final(worker_data).ctxt_per_job == old(worker_data).ctxt_per_job,
        final(worker_data).id == old(worker_data).id,
        final(worker_data).mpc_decryptions@.len() == old(worker_data).mpc_decryptions@.len(),
        (r is NoReady) <==> (final(worker_data).params.n < 1 || count_for_step(
            final(worker_data).steps_bulk_data@,
            step_num,
        ) < final(worker_data).params.n - 1),
        !(r is NoReady) && step_num == STEP_COUNT - 1 ==> (r is Finished),
        !(r is NoReady) && step_num != STEP_COUNT - 1 ==> (r is NextStep) && (r->NextStep_0).0
            == (if step_num >= STEP_COUNT {
            0int
        } else {
            step_num + 1
        }) && (r->NextStep_0).1@.len() <= final(worker_data).mpc_decryptions@.len(),
{
    worker_data.insert_bundle(step_num, received_from_participant, input_data);
    let step_bulk_data = worker_data.collect_step(step_num);
    let n = worker_data.params.n;
    // wait until every other party has spoken for this round
    if n < 1 || step_bulk_data.len() < n - 1 {
        return ExecutionResult::NoReady;
    }
    let ghost buffered = worker_data.steps_bulk_data@;
    let mut output_data: Vec<ProtocolTransferredData> = Vec::new();
    let count = worker_data.mpc_decryptions.len();
    let mut ctxt_index: usize = 0;
    while ctxt_index < count
        invariant
            ctxt_index <= count,
            count == worker_data.mpc_decryptions@.len(),
            count == old(worker_data).mpc_decryptions@.len(),
            worker_data.params == old(worker_data).params,
            worker_data.ctxt_per_job == old(worker_data).ctxt_per_job,
            worker_data.id == old(worker_data).id,
            worker_data.steps_bulk_data@ == buffered,
            output_data@.len() <= ctxt_index,
        decreases count - ctxt_index,
    {
        // this ciphertext's slice of every peer's bundle
        let mut step_input: Vec<ProtocolTransferredData> = Vec::new();
        let mut s: usize = 0;
        while s < step_bulk_data.len()
            invariant
                s <= step_bulk_data@.len(),
            decreases step_bulk_data@.len() - s,
        {
            if ctxt_index < step_bulk_data[s].len() {
                step_input.push(step_bulk_data[s][ctxt_index].clone());
            }
            s = s + 1;
        }
        let mut party = worker_data.mpc_decryptions.remove(ctxt_index);
        if party.check_step_pre(step_num, &step_input) {
            let out = party.execute_step(step_num, step_input);
            output_data.push(out);
        }
        worker_data.mpc_decryptions.insert(ctxt_index, party);
        ctxt_index = ctxt_index + 1;
    }
    let next_step_num: usize = if step_num >= STEP_COUNT {
        0
    } else {
        step_num + 1
    };
    if next_step_num == STEP_COUNT {
        ExecutionResult::Finished
    } else {
        ExecutionResult::NextStep((next_step_num, output_data))
    }
}

} // verus!
