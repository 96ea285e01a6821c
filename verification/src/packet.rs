//! The flow (packet) entity: one unit of work with an arrival time, a
//! demand vector, a granted allocation, and a service-progress state
//! machine.
//!
//! A flow is `Pending` until a re-allocation first grants it a non-zero
//! rate, then `Scheduled`; it is `Completed` once its cumulative progress
//! exceeds its required service amount, and never leaves that state.
//! Progress advances by exactly the granted rate against the designated
//! primary resource (index zero), held as an exact rational; losing the
//! grant later does not revert a `Scheduled` flow to `Pending`.

use vstd::prelude::*;
use crate::rat::{q_wf, q_eq, q_le, q_lt, q_add, q_mul, q_div, q_zero, q_nonneg, q_pos, q_in_i64,
    Rat, lemma_q_eq_trans, lemma_q_le_trans, lemma_q_le_congruence, lemma_q_lt_congruence,
    lemma_q_add_wf, lemma_q_add_congruence, lemma_q_add_zero, lemma_q_le_add_nonneg,
    lemma_q_div_props, lemma_q_mul_nonneg, lemma_q_sign_congruence};
use crate::algorithms::AllocError;

verus! {

/// What one successful `Packet::step` call guarantees, as a relation
/// between the flow before (`pre`) and after (`post`) a tick at time `t`
/// that reported `done`.
pub open spec fn step_post(pre: Packet, post: Packet, t: u64, done: bool) -> bool {
    &&& post.wf()
    &&& post.id == pre.id
    &&& post.t_arrival == pre.t_arrival
    &&& post.resource_req == pre.resource_req
    &&& post.resource_alloc == pre.resource_alloc
    &&& post.service_time == pre.service_time
    &&& q_le(pre.progress(), post.progress())
    &&& done <==> post.state == FlowState::Completed
    &&& done <==> q_lt(post.service_time@, post.progress())
    &&& done ==> post.t_departure == t
    &&& !done ==> post.state == pre.state && post.t_departure == pre.t_departure
    &&& pre.zero_rate() ==> !done && post == pre
    &&& pre.resource_alloc@.len() > 0 ==> q_eq(
        post.progress(),
        q_add(pre.progress(), q_div(pre.resource_alloc@[0]@, pre.resource_req@[0]@)),
    )
}

/// A run of ticks: `states[k]` steps to `states[k + 1]` at time `ts[k]`,
/// reporting `dones[k]`.
pub open spec fn step_chain(states: Seq<Packet>, ts: Seq<u64>, dones: Seq<bool>) -> bool {
    &&& states.len() == ts.len() + 1
    &&& dones.len() == ts.len()
    &&& forall|k: int| 0 <= k < ts.len() ==> step_post(
        #[trigger] states[k],
        states[k + 1],
        ts[k],
        dones[k],
    )
}

/// Every flow along a run that starts well-formed is well-formed.
proof fn lemma_chain_wf(states: Seq<Packet>, ts: Seq<u64>, dones: Seq<bool>, k: int)
    requires
        step_chain(states, ts, dones),
        states.len() > 0,
        states[0].wf(),
        0 <= k < states.len(),
    ensures
        states[k].wf(),
{
    if k > 0 {
        assert(step_post(states[k - 1], states[k], ts[k - 1], dones[k - 1]));
    }
}

/// Across any run of ticks, a flow's cumulative progress never decreases.
pub proof fn lemma_progress_monotone_across_ticks(
    states: Seq<Packet>,
    ts: Seq<u64>,
    dones: Seq<bool>,
)
    requires
        step_chain(states, ts, dones),
        states.len() > 0,
        states[0].wf(),
    ensures
        forall|k1: int, k2: int| #![trigger states[k1], states[k2]]
            0 <= k1 <= k2 < states.len() ==> q_le(states[k1].progress(), states[k2].progress()),
{
    assert forall|k1: int, k2: int| #![trigger states[k1], states[k2]]
        0 <= k1 <= k2 < states.len() implies q_le(
        states[k1].progress(),
        states[k2].progress(),
    ) by {
        lemma_progress_monotone_helper(states, ts, dones, k1, k2);
    }
}

proof fn lemma_progress_monotone_helper(
    states: Seq<Packet>,
    ts: Seq<u64>,
    dones: Seq<bool>,
    k1: int,
    k2: int,
)
    requires
        step_chain(states, ts, dones),
        states.len() > 0,
        states[0].wf(),
        0 <= k1 <= k2 < states.len(),
    ensures
        q_le(states[k1].progress(), states[k2].progress()),
    decreases k2 - k1,
{
    if k1 < k2 {
        lemma_progress_monotone_helper(states, ts, dones, k1, k2 - 1);
        assert(step_post(states[k2 - 1], states[k2], ts[k2 - 1], dones[k2 - 1]));
        lemma_chain_wf(states, ts, dones, k1);
        lemma_chain_wf(states, ts, dones, k2 - 1);
        lemma_chain_wf(states, ts, dones, k2);
        lemma_q_le_trans(
            states[k1].progress(),
            states[k2 - 1].progress(),
            states[k2].progress(),
        );
    }
}

/// A flow holding no effective grant is inert: across any run of ticks it
/// never changes and never completes.
pub proof fn lemma_zero_grant_never_completes(states: Seq<Packet>, ts: Seq<u64>, dones: Seq<bool>)
    requires
        step_chain(states, ts, dones),
        states.len() > 0,
        states[0].zero_rate(),
    ensures
        forall|k: int| 0 <= k < states.len() ==> #[trigger] states[k] == states[0],
        forall|k: int| 0 <= k < dones.len() ==> !(#[trigger] dones[k]),
{
    assert forall|k: int| 0 <= k < states.len() implies #[trigger] states[k] == states[0] by {
        lemma_zero_grant_helper(states, ts, dones, k);
    }
    assert forall|k: int| 0 <= k < dones.len() implies !(#[trigger] dones[k]) by {
        lemma_zero_grant_helper(states, ts, dones, k);
        assert(step_post(states[k], states[k + 1], ts[k], dones[k]));
    }
}

proof fn lemma_zero_grant_helper(states: Seq<Packet>, ts: Seq<u64>, dones: Seq<bool>, k: int)
    requires
        step_chain(states, ts, dones),
        states.len() > 0,
        states[0].zero_rate(),
        0 <= k < states.len(),
    ensures
        states[k] == states[0],
    decreases k,
{
    if k > 0 {
        lemma_zero_grant_helper(states, ts, dones, k - 1);
        assert(step_post(states[k - 1], states[k], ts[k - 1], dones[k - 1]));
    }
}

/// Where a flow stands in its lifecycle.
#[derive(Clone, Copy, Debug, PartialEq, Eq, Structural)]
pub enum FlowState {
    /// Created, never yet granted resources.
    Pending,
    /// Granted a non-zero rate at least once.
    Scheduled,
    /// Finished; terminal.
    Completed,
}

/// One unit of work moving through the simulator.
pub struct Packet {
    pub id: u64,
    pub t_arrival: u64,
    pub t_departure: u64,
    /// Resources one unit of this flow consumes per tick.
    pub resource_req: Vec<Rat>,
    /// Resources currently granted, empty while none were ever granted.
    pub resource_alloc: Vec<Rat>,
    /// Ticks of service the flow needs.
    pub service_time: Rat,
    /// Service received so far, exact.
    pub adjusted_service_time: Rat,
    pub state: FlowState,
}

impl Packet {
    /// The flow's cumulative progress.
    pub open spec fn progress(self) -> (int, int) {
        self.adjusted_service_time@
    }

    /// The flow's current grant advances no progress: it either holds no
    /// allocation or a zero one.
    pub open spec fn zero_rate(self) -> bool {
        self.resource_alloc@.len() == 0 || q_eq(self.resource_alloc@[0]@, q_zero())
    }

    pub open spec fn wf(self) -> bool {
        &&& self.service_time.wf() && q_nonneg(self.service_time@)
        &&& self.adjusted_service_time.wf() && q_nonneg(self.adjusted_service_time@)
        &&& self.resource_req@.len() > 0
        &&& (forall|j: int| 0 <= j < self.resource_req@.len() ==> (
        #[trigger] self.resource_req@[j]).wf() && q_nonneg(self.resource_req@[j]@))
        &&& q_pos(self.resource_req@[0]@)
        &&& (self.resource_alloc@.len() == 0 || self.resource_alloc@.len()
            == self.resource_req@.len())
        &&& (forall|j: int| 0 <= j < self.resource_alloc@.len() ==> (
        #[trigger] self.resource_alloc@[j]).wf() && q_nonneg(self.resource_alloc@[j]@))
        &&& (self.state == FlowState::Pending ==> self.resource_alloc@.len() == 0 && q_eq(
            self.adjusted_service_time@,
            q_zero(),
        ))
        &&& (self.state == FlowState::Scheduled ==> !q_lt(self.service_time@, self.progress()))
        &&& (self.state == FlowState::Completed ==> self.t_departure >= self.t_arrival && q_lt(
            self.service_time@,
            self.progress(),
        ))
    }

    /// A fresh `Pending` flow.
    pub fn new(id: u64, t: u64, service_time: Rat, resource_req: Vec<Rat>) -> (p: Packet)
        requires
            service_time.wf(),
            q_nonneg(service_time@),
            resource_req@.len() > 0,
            forall|j: int| 0 <= j < resource_req@.len() ==> (#[trigger] resource_req@[j]).wf()
                && q_nonneg(resource_req@[j]@),
            q_pos(resource_req@[0]@),
        ensures
            p.wf(),
            p.id == id,
            p.t_arrival == t,
            p.state == FlowState::Pending,
            p.resource_req == resource_req,
            p.service_time == service_time,
            p.resource_alloc@.len() == 0,
            q_eq(p.progress(), q_zero()),
    {
        Packet {
            id,
            t_arrival: t,
            t_departure: 0,
            resource_req,
            resource_alloc: Vec::new(),
            service_time,
            adjusted_service_time: Rat::zero(),
            state: FlowState::Pending,
        }
    }

    pub fn is_completed(&self) -> (r: bool)
        ensures
            r == (self.state == FlowState::Completed),
    {
        match self.state {
            FlowState::Completed => true,
            _ => false,
        }
    }

    pub fn is_scheduled(&self) -> (r: bool)
        ensures
            r == (self.state == FlowState::Scheduled),
    {
        match self.state {
            FlowState::Scheduled => true,
            _ => false,
        }
    }

    /// Ticks the flow spent in the system, fixed at completion.
    pub fn latency(&self) -> (r: u64)
        requires
            self.wf(),
            self.state == FlowState::Completed,
        ensures
            r == self.t_departure - self.t_arrival,
    {
        self.t_departure - self.t_arrival
    }

    /// Grant the flow `rate`, scaling its demand vector; a `Pending` flow
    /// receiving a non-zero rate becomes `Scheduled`, and one receiving
    /// zero stays `Pending` with nothing granted. Success is owed whenever
    /// the rate is zero, or every unreduced entry of the scaled demand
    /// vector fits `i64` storage.
    pub fn set_allocation(&mut self, rate: &Rat) -> (r: Result<(), AllocError>)
        requires
            old(self).wf(),
            old(self).state != FlowState::Completed,
            rate.wf(),
            q_nonneg(rate@),
        ensures
            (!q_pos(rate@) || (forall|j: int|
                0 <= j < old(self).resource_req@.len() ==> q_in_i64(
                    q_mul(rate@, (#[trigger] old(self).resource_req@[j])@),
                ))) ==> r is Ok,
            match r {
                Ok(u) => {
                    &&& final(self).wf()
                    &&& final(self).id == old(self).id
                    &&& final(self).t_arrival == old(self).t_arrival
                    &&& final(self).t_departure == old(self).t_departure
                    &&& final(self).resource_req == old(self).resource_req
                    &&& final(self).service_time == old(self).service_time
                    &&& final(self).adjusted_service_time == old(self).adjusted_service_time
                    &&& final(self).state != FlowState::Completed
                    &&& q_pos(rate@) ==> final(self).state == FlowState::Scheduled
                    &&& old(self).state == FlowState::Scheduled ==> final(self).state
                        == FlowState::Scheduled
                    &&& (old(self).state == FlowState::Pending && !q_pos(rate@)) ==> *final(self)
                        == *old(self)
                    &&& (old(self).state == FlowState::Scheduled || q_pos(rate@)) ==> {
                        &&& final(self).resource_alloc@.len() == final(self).resource_req@.len()
                        &&& forall|j: int| 0 <= j < final(self).resource_alloc@.len() ==> q_eq(
                            (#[trigger] final(self).resource_alloc@[j])@,
                            q_mul(rate@, old(self).resource_req@[j]@),
                        )
                    }
                },
                Err(e) => e == AllocError::NumericOverflow && *final(self) == *old(self),
            },
    {
        let is_pending = match self.state {
            FlowState::Pending => true,
            _ => false,
        };
        if is_pending && !rate.is_pos() {
            return Ok(());
        }
        let n: usize = self.resource_req.len();
        let mut alloc: Vec<Rat> = Vec::new();
        let mut j: usize = 0;
        while j < n
            invariant
                j <= n,
                n == self.resource_req@.len(),
                self == old(self),
                old(self).wf(),
                rate.wf(),
                q_nonneg(rate@),
                alloc@.len() == j,
                forall|j2: int| 0 <= j2 < j ==> (#[trigger] alloc@[j2]).wf() && q_nonneg(
                    alloc@[j2]@,
                ) && q_eq(alloc@[j2]@, q_mul(rate@, old(self).resource_req@[j2]@)),
            decreases n - j,
        {
            let v: Rat = match rate.checked_mul(&self.resource_req[j]) {
                Some(v) => v,
                None => {
                    proof {
                        // a zero rate or a storable product would have
                        // multiplied, so neither owed case applies
                        assert(rate@.0 != 0);
                        assert(q_pos(rate@));
                        assert(!q_in_i64(q_mul(rate@, old(self).resource_req@[j as int]@)));
                    }
                    return Err(AllocError::NumericOverflow);
                },
            };
            proof {
                lemma_q_add_wf(rate@, old(self).resource_req@[j as int]@);
                lemma_q_mul_nonneg(rate@, old(self).resource_req@[j as int]@);
                lemma_q_sign_congruence(v@, q_mul(rate@, old(self).resource_req@[j as int]@));
            }
            let ghost old_alloc = alloc@;
            alloc.push(v);
            proof {
                assert(forall|j2: int| 0 <= j2 < j ==> alloc@[j2] == old_alloc[j2]);
            }
            j += 1;
        }
        self.resource_alloc = alloc;
        if rate.is_pos() {
            self.state = FlowState::Scheduled;
        }
        proof {
            if old(self).state == FlowState::Pending {
                // a newly scheduled flow has made no progress yet
                assert(!q_lt(self.service_time@, self.adjusted_service_time@))
                    by (nonlinear_arith)
                    requires
                        q_wf(self.service_time@),
                        q_nonneg(self.service_time@),
                        q_wf(self.adjusted_service_time@),
                        q_eq(self.adjusted_service_time@, q_zero()),
                ;
            }
        }
        Ok(())
    }

    /// Advance one tick of service. A flow holding an allocation gains
    /// exactly `alloc[0] / req[0]` service; it completes, with its
    /// departure tick fixed at `t`, exactly when that pushes progress past
    /// the required service amount. Progress never decreases, and a flow
    /// whose grant is zero neither advances nor completes. Success is owed
    /// whenever the grant is zero, or the unreduced rate and the unreduced
    /// advanced progress both fit `i64` storage.
    pub fn step(&mut self, t: u64) -> (r: Result<bool, AllocError>)
        requires
            old(self).wf(),
            old(self).state != FlowState::Completed,
            t >= old(self).t_arrival,
        ensures
            match r {
                Ok(done) => step_post(*old(self), *final(self), t, done),
                Err(e) => e == AllocError::NumericOverflow && *final(self) == *old(self),
            },
            (old(self).zero_rate() || (q_in_i64(
                q_div(old(self).resource_alloc@[0]@, old(self).resource_req@[0]@),
            ) && q_in_i64(
                q_add(
                    old(self).progress(),
                    q_div(old(self).resource_alloc@[0]@, old(self).resource_req@[0]@),
                ),
            ))) ==> r is Ok,
    {
        if self.resource_alloc.len() == 0 {
            proof {
                if self.state == FlowState::Pending {
                    // no progress yet, and the required service is not negative
                    assert(!q_lt(self.service_time@, self.adjusted_service_time@))
                        by (nonlinear_arith)
                        requires
                            q_wf(self.service_time@),
                            q_nonneg(self.service_time@),
                            q_wf(self.adjusted_service_time@),
                            q_eq(self.adjusted_service_time@, q_zero()),
                    ;
                }
            }
            return Ok(false);
        }
        let ghost a0 = old(self).resource_alloc@[0]@;
        let ghost q0 = old(self).resource_req@[0]@;
        let ghost d = q_div(a0, q0);
        proof {
            lemma_q_div_props(a0, q0);
        }
        let ratio: Rat = match self.resource_alloc[0].checked_div(&self.resource_req[0]) {
            Some(v) => v,
            None => {
                proof {
                    // a zero or storable rate would have divided
                    if q_eq(a0, q_zero()) {
                        assert(a0.0 == 0) by (nonlinear_arith)
                            requires
                                q_eq(a0, q_zero()),
                        ;
                        assert(false);
                    }
                    if q_in_i64(d) {
                        assert(false);
                    }
                }
                return Err(AllocError::NumericOverflow);
            },
        };
        proof {
            lemma_q_sign_congruence(ratio@, d);
            if q_eq(a0, q_zero()) {
                // a zero grant is the zero rate, held as exactly (0, 1)
                assert(a0.0 == 0) by (nonlinear_arith)
                    requires
                        q_eq(a0, q_zero()),
                ;
                assert(ratio@ == (0int, 1int));
            }
        }
        let new_progress: Rat = match self.adjusted_service_time.checked_add(&ratio) {
            Some(v) => v,
            None => {
                proof {
                    let p = old(self).progress();
                    old(self).adjusted_service_time.lemma_view_in_i64();
                    if q_eq(a0, q_zero()) {
                        // adding the zero rate cannot leave range
                        assert(q_in_i64(q_add(p, ratio@))) by (nonlinear_arith)
                            requires
                                ratio@ == (0int, 1int),
                                -0x8000_0000_0000_0000 <= p.0 <= 0x7fff_ffff_ffff_ffff,
                                -0x8000_0000_0000_0000 <= p.1 <= 0x7fff_ffff_ffff_ffff,
                                q_add(p, ratio@) == (
                                    p.0 * ratio@.1 + ratio@.0 * p.1,
                                    p.1 * ratio@.1,
                                ),
                        ;
                        assert(false);
                    }
                    if q_in_i64(d) && q_in_i64(q_add(p, d)) {
                        // the reduced rate is componentwise within the raw
                        // one, so the raw sum bounds the computed one
                        assert(q_in_i64(q_add(p, ratio@))) by (nonlinear_arith)
                            requires
                                q_wf(p),
                                q_nonneg(p),
                                q_wf(ratio@),
                                q_nonneg(ratio@),
                                d.0 >= 0,
                                d.1 > 0,
                                -d.0 <= ratio@.0 <= d.0,
                                0 < ratio@.1 <= d.1,
                                q_in_i64(q_add(p, d)),
                                q_add(p, d) == (p.0 * d.1 + d.0 * p.1, p.1 * d.1),
                                q_add(p, ratio@) == (
                                    p.0 * ratio@.1 + ratio@.0 * p.1,
                                    p.1 * ratio@.1,
                                ),
                        ;
                        assert(false);
                    }
                }
                return Err(AllocError::NumericOverflow);
            },
        };
        let ghost p = old(self).progress();
        proof {
            lemma_q_add_wf(p, ratio@);
            lemma_q_le_add_nonneg(p, ratio@);
            lemma_q_le_congruence(p, p, q_add(p, ratio@), new_progress@);
            lemma_q_sign_congruence(new_progress@, q_add(p, ratio@));
            // the new progress is exactly the old plus the granted rate
            lemma_q_add_congruence(p, p, ratio@, d);
            lemma_q_add_wf(p, d);
            lemma_q_eq_trans(new_progress@, q_add(p, ratio@), q_add(p, d));
            if q_eq(a0, q_zero()) {
                lemma_q_add_zero(p, ratio@);
                lemma_q_eq_trans(new_progress@, q_add(p, ratio@), p);
            }
        }
        let done: bool = self.service_time.lt(&new_progress);
        if done {
            proof {
                if q_eq(a0, q_zero()) {
                    // `Scheduled` well-formedness rules completion out here
                    lemma_q_lt_congruence(
                        self.service_time@,
                        self.service_time@,
                        new_progress@,
                        p,
                    );
                    assert(false);
                }
            }
            self.adjusted_service_time = new_progress;
            self.t_departure = t;
            self.state = FlowState::Completed;
            Ok(true)
        } else {
            if self.resource_alloc[0].is_pos() {
                self.adjusted_service_time = new_progress;
            } else {
                proof {
                    // a grant that is not positive is zero, and adds nothing
                    assert(q_eq(a0, q_zero())) by (nonlinear_arith)
                        requires
                            q_wf(a0),
                            q_nonneg(a0),
                            !q_pos(a0),
                    ;
                }
            }
            Ok(false)
        }
    }
}

} // verus!
