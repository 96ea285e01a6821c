//! The discrete-tick simulator.
//!
//! Each tick: possibly admit one stochastically generated flow, step every
//! active flow, and — when an arrival or a completion happened — re-run the
//! configured allocation policy over the flows still in play and write the
//! granted rates back. The loop runs for a fixed number of ticks and then
//! reports how many flows were generated and the recorded latencies.

use vstd::prelude::*;
use crate::rat::{q_nonneg, q_pos, Rat};
use crate::rat_seq::all_nonneg;
use crate::algorithms::{AllocError, rats_view, mat_view, all_pos, feasible, has_pos_entry};
use crate::packet::{Packet, FlowState};
use crate::drf::drf_allocate;
use crate::ceei::ceei_allocate;
use crate::asset_fairness::asset_allocate;
use crate::rng::{rng_from_seed, rng_ratio, rng_range};

verus! {

/// Which fairness policy drives re-allocation.
pub enum Policy {
    Drf,
    Ceei,
    AssetFairness(Vec<Rat>),
}

/// The policy's own configuration is usable for `m` resources.
pub open spec fn policy_wf(p: Policy, m: int) -> bool {
    match p {
        Policy::Drf => true,
        Policy::Ceei => true,
        Policy::AssetFairness(prices) => all_pos(rats_view(prices@)) && prices@.len() == m,
    }
}

/// Everything a simulation run depends on, stated explicitly.
pub struct SimConfig {
    /// How many ticks to run.
    pub ticks: u64,
    /// Seed for the arrival process.
    pub seed: u64,
    /// Capacity of each resource.
    pub capacity: Vec<Rat>,
    /// Per-tick arrival probability, as a ratio.
    pub arrival_num: u32,
    pub arrival_den: u32,
    /// Required service amounts are drawn from `[service_lo, service_hi)`.
    pub service_lo: u64,
    pub service_hi: u64,
    /// Per-resource demands are drawn from `[demand_lo, demand_hi)`.
    pub demand_lo: u64,
    pub demand_hi: u64,
    pub policy: Policy,
}

pub open spec fn config_wf(c: SimConfig) -> bool {
    &&& c.capacity@.len() > 0
    &&& all_nonneg(rats_view(c.capacity@))
    &&& (c.policy is Drf ==> all_pos(rats_view(c.capacity@)))
    &&& 0 < c.arrival_den
    &&& c.arrival_num <= c.arrival_den
    &&& 0 < c.service_lo < c.service_hi <= 0x7fff_ffff_ffff_ffff
    &&& 0 < c.demand_lo < c.demand_hi <= 0x7fff_ffff_ffff_ffff
    &&& policy_wf(c.policy, c.capacity@.len() as int)
}

/// One admitted flow, as drawn by the arrival process.
#[derive(Clone, Debug, PartialEq, Eq)]
pub struct ArrivalRecord {
    pub tick: u64,
    pub service: u64,
    pub demand: Vec<u64>,
}

/// What a finished run reports.
#[derive(Clone, Debug, PartialEq, Eq)]
pub struct SimReport {
    /// Total flows generated.
    pub total_packets: u64,
    /// Latency of every completed flow, in completion order.
    pub latencies: Vec<u64>,
    /// Every admitted flow, in arrival order.
    pub arrivals: Vec<ArrivalRecord>,
}

/// `a` is a prefix of `b`.
pub open spec fn is_prefix<T>(a: Seq<T>, b: Seq<T>) -> bool {
    a.len() <= b.len() && forall|i: int| 0 <= i < a.len() ==> a[i] == b[i]
}

/// An arrival record the configured distributions can produce at all.
pub open spec fn record_wf(rec: ArrivalRecord, c: SimConfig) -> bool {
    &&& c.service_lo <= rec.service < c.service_hi
    &&& rec.demand@.len() == c.capacity@.len()
    &&& forall|j: int| 0 <= j < rec.demand@.len() ==> c.demand_lo <= #[trigger] rec.demand@[j]
        < c.demand_hi
}

/// The simulator: the active flow set, the statistics gathered so far, and
/// the source of arrivals.
pub struct Simulator {
    pub config: SimConfig,
    pub rng: rand::rngs::StdRng,
    pub active: Vec<Packet>,
    pub latencies: Vec<u64>,
    pub arrivals: Vec<ArrivalRecord>,
    pub num_pkts: u64,
    pub now: u64,
}

impl Simulator {
    pub open spec fn wf(self) -> bool {
        &&& config_wf(self.config)
        &&& self.num_pkts <= self.now
        &&& self.num_pkts == self.arrivals@.len()
        &&& (forall|i: int| 0 <= i < self.active@.len() ==> (#[trigger] self.active@[i]).wf()
            && self.active@[i].state != FlowState::Completed
            && self.active@[i].resource_req@.len() == self.config.capacity@.len()
            && self.active@[i].t_arrival <= self.now)
        &&& (forall|i: int| 0 <= i < self.arrivals@.len() ==> record_wf(
            #[trigger] self.arrivals@[i],
            self.config,
        ) && self.arrivals@[i].tick < self.now)
    }

    pub fn new(config: SimConfig) -> (s: Simulator)
        requires
            config_wf(config),
        ensures
            s.wf(),
            s.config == config,
            s.now == 0,
            s.num_pkts == 0,
            s.active@.len() == 0,
            s.latencies@.len() == 0,
            s.arrivals@.len() == 0,
    {
        let rng = rng_from_seed(config.seed);
        Simulator {
            config,
            rng,
            active: Vec::new(),
            latencies: Vec::new(),
            arrivals: Vec::new(),
            num_pkts: 0,
            now: 0,
        }
    }

    /// One tick: sample an arrival, step every active flow, collect the
    /// completed ones' latencies, and re-allocate if anything changed.
    /// An error abandons the tick midway and is fatal to the run; no
    /// retry could succeed, since the computation is deterministic in its
    /// inputs.
    #[verifier::loop_isolation(false)]
    pub fn tick(&mut self) -> (r: Result<(), AllocError>)
        requires
            old(self).wf(),
            old(self).now < u64::MAX,
        ensures
            match r {
                Ok(u) => {
                    &&& final(self).wf()
                    &&& final(self).config == old(self).config
                    &&& final(self).now == old(self).now + 1
                    &&& is_prefix(old(self).latencies@, final(self).latencies@)
                    &&& is_prefix(old(self).arrivals@, final(self).arrivals@)
                    &&& final(self).arrivals@.len() <= old(self).arrivals@.len() + 1
                    &&& final(self).num_pkts - old(self).num_pkts == final(self).arrivals@.len()
                        - old(self).arrivals@.len()
                    &&& old(self).config.arrival_num == old(self).config.arrival_den
                        ==> final(self).arrivals@.len() == old(self).arrivals@.len() + 1
                    &&& old(self).config.arrival_num == 0
                        ==> final(self).arrivals@.len() == old(self).arrivals@.len()
                    &&& forall|i: int|
                        old(self).latencies@.len() <= i < final(self).latencies@.len()
                            ==> #[trigger] final(self).latencies@[i] <= old(self).now
                    &&& (old(self).config.arrival_num == 0 && old(self).active@.len() == 0)
                        ==> final(self).active@.len() == 0
                },
                Err(e) => {
                    &&& e != AllocError::DimensionMismatch
                    &&& final(self).config == old(self).config
                    &&& final(self).now == old(self).now
                    &&& final(self).num_pkts == final(self).arrivals@.len()
                    &&& is_prefix(old(self).latencies@, final(self).latencies@)
                    &&& is_prefix(old(self).arrivals@, final(self).arrivals@)
                },
            },
            (old(self).config.arrival_num == 0 && old(self).active@.len() == 0) ==> r is Ok,
    {
        let ghost m = self.config.capacity@.len();

        // arrival phase
        let arrived: bool = rng_ratio(
            &mut self.rng,
            self.config.arrival_num,
            self.config.arrival_den,
        );
        if arrived {
            let service: u64 = rng_range(
                &mut self.rng,
                self.config.service_lo,
                self.config.service_hi,
            );
            let m_exec: usize = self.config.capacity.len();
            let dlo: u64 = self.config.demand_lo;
            let dhi: u64 = self.config.demand_hi;
            let mut demand_ints: Vec<u64> = Vec::new();
            let mut j: usize = 0;
            while j < m_exec
                invariant
                    j <= m_exec,
                    dlo < dhi <= 0x7fff_ffff_ffff_ffff,
                    demand_ints@.len() == j,
                    forall|j2: int| 0 <= j2 < j ==> dlo <= #[trigger] demand_ints@[j2] < dhi,
                    self.config == old(self).config,
                    self.active == old(self).active,
                    self.latencies == old(self).latencies,
                    self.arrivals == old(self).arrivals,
                    self.num_pkts == old(self).num_pkts,
                    self.now == old(self).now,
                decreases m_exec - j,
            {
                let d: u64 = rng_range(&mut self.rng, dlo, dhi);
                demand_ints.push(d);
                j += 1;
            }
            let mut req: Vec<Rat> = Vec::new();
            let mut j2: usize = 0;
            while j2 < m_exec
                invariant
                    j2 <= m_exec,
                    m_exec == demand_ints@.len(),
                    dlo < dhi <= 0x7fff_ffff_ffff_ffff,
                    0 < dlo,
                    forall|j3: int| 0 <= j3 < m_exec ==> dlo <= #[trigger] demand_ints@[j3] < dhi,
                    req@.len() == j2,
                    forall|j3: int| 0 <= j3 < j2 ==> (#[trigger] req@[j3]).wf() && q_pos(
                        req@[j3]@,
                    ) && q_nonneg(req@[j3]@),
                decreases m_exec - j2,
            {
                let d: u64 = demand_ints[j2];
                let dr: Rat = Rat::from_int(d as i64);
                req.push(dr);
                j2 += 1;
            }
            let svc: Rat = Rat::from_int(service as i64);
            let p: Packet = Packet::new(self.num_pkts, self.now, svc, req);
            self.active.push(p);
            self.num_pkts = self.num_pkts + 1;
            let rec = ArrivalRecord { tick: self.now, service, demand: demand_ints };
            self.arrivals.push(rec);
        }

        // step phase: advance every active flow, recording completions
        let mut still: Vec<Packet> = Vec::new();
        let mut any_done: bool = false;
        while self.active.len() > 0
            invariant
                old(self).wf(),
                self.config == old(self).config,
                self.now == old(self).now,
                self.num_pkts == self.arrivals@.len(),
                self.num_pkts <= self.now + 1,
                is_prefix(old(self).latencies@, self.latencies@),
                forall|i: int| old(self).latencies@.len() <= i < self.latencies@.len()
                    ==> #[trigger] self.latencies@[i] <= self.now,
                (old(self).config.arrival_num == 0 && old(self).active@.len() == 0)
                    ==> self.active@.len() == 0 && still@.len() == 0 && !any_done,
                is_prefix(old(self).arrivals@, self.arrivals@),
                self.arrivals@.len() <= old(self).arrivals@.len() + 1,
                arrived ==> self.arrivals@.len() == old(self).arrivals@.len() + 1,
                !arrived ==> self.arrivals@.len() == old(self).arrivals@.len(),
                self.num_pkts - old(self).num_pkts == self.arrivals@.len() - old(
                    self,
                ).arrivals@.len(),
                forall|i: int| 0 <= i < self.arrivals@.len() ==> record_wf(
                    #[trigger] self.arrivals@[i],
                    self.config,
                ) && self.arrivals@[i].tick <= self.now,
                forall|i: int| 0 <= i < self.active@.len() ==> (#[trigger] self.active@[i]).wf()
                    && self.active@[i].state != FlowState::Completed
                    && self.active@[i].resource_req@.len() == self.config.capacity@.len()
                    && self.active@[i].t_arrival <= self.now,
                forall|i: int| 0 <= i < still@.len() ==> (#[trigger] still@[i]).wf()
                    && still@[i].state != FlowState::Completed
                    && still@[i].resource_req@.len() == self.config.capacity@.len()
                    && still@[i].t_arrival <= self.now,
            decreases self.active@.len(),
        {
            let mut p: Packet = self.active.remove(0);
            let done: bool = match p.step(self.now) {
                Ok(d) => d,
                Err(e) => {
                    return Err(e);
                },
            };
            if done {
                let lat: u64 = p.latency();
                self.latencies.push(lat);
                any_done = true;
            } else {
                still.push(p);
            }
        }
        self.active = still;

        // re-allocation phase
        if arrived || any_done {
            let n: usize = self.active.len();
            let mut demands: Vec<Vec<Rat>> = Vec::new();
            let mut i: usize = 0;
            while i < n
                invariant
                    i <= n,
                    n == self.active@.len(),
                    forall|i2: int| 0 <= i2 < n ==> (#[trigger] self.active@[i2]).wf()
                        && self.active@[i2].state != FlowState::Completed
                        && self.active@[i2].resource_req@.len() == self.config.capacity@.len()
                        && self.active@[i2].t_arrival <= self.now,
                    demands@.len() == i,
                    forall|i2: int| 0 <= i2 < i ==> (#[trigger] demands@[i2])@
                        == self.active@[i2].resource_req@,
                decreases n - i,
            {
                let rlen: usize = self.active[i].resource_req.len();
                let mut row: Vec<Rat> = Vec::new();
                let mut j: usize = 0;
                while j < rlen
                    invariant
                        j <= rlen,
                        i < self.active@.len(),
                        rlen == self.active@[i as int].resource_req@.len(),
                        row@.len() == j,
                        forall|j2: int| 0 <= j2 < j ==> #[trigger] row@[j2]
                            == self.active@[i as int].resource_req@[j2],
                    decreases rlen - j,
                {
                    row.push(self.active[i].resource_req[j]);
                    j += 1;
                }
                proof {
                    assert(row@ =~= self.active@[i as int].resource_req@);
                }
                demands.push(row);
                i += 1;
            }
            proof {
                let dmv = mat_view(demands@);
                let rv = rats_view(self.config.capacity@);
                assert forall|i2: int| 0 <= i2 < dmv.len() implies (#[trigger] dmv[i2]).len()
                    == rv.len() && crate::rat_seq::all_nonneg(dmv[i2]) && has_pos_entry(
                    dmv[i2],
                ) by {
                    let pk = self.active@[i2];
                    assert(dmv[i2] == rats_view(demands@[i2]@));
                    assert forall|j2: int| 0 <= j2 < dmv[i2].len() implies crate::rat::q_wf(
                        #[trigger] dmv[i2][j2],
                    ) && q_nonneg(dmv[i2][j2]) by {
                        assert(dmv[i2][j2] == pk.resource_req@[j2]@);
                    }
                    assert(dmv[i2][0] == pk.resource_req@[0]@);
                    assert(q_pos(dmv[i2][0]));
                }
            }
            let allocs: Vec<Rat> = {
                let res = match &self.config.policy {
                    Policy::Drf => drf_allocate(&self.config.capacity, &demands),
                    Policy::Ceei => ceei_allocate(&self.config.capacity, &demands),
                    Policy::AssetFairness(prices) => asset_allocate(
                        prices,
                        &self.config.capacity,
                        &demands,
                    ),
                };
                match res {
                    Ok(a) => a,
                    Err(e) => {
                        return Err(e);
                    },
                }
            };
            let ghost av = rats_view(allocs@);

            // write the granted rates back, in flow order
            let ghost old_latencies = self.latencies;
            let ghost old_arrivals = self.arrivals;
            let ghost old_num_pkts = self.num_pkts;
            let mut updated: Vec<Packet> = Vec::new();
            let mut i2: usize = 0;
            while self.active.len() > 0
                invariant
                    i2 == updated@.len(),
                    i2 + self.active@.len() == n,
                    n == allocs@.len(),
                    av == rats_view(allocs@),
                    feasible(
                        rats_view(self.config.capacity@),
                        mat_view(demands@),
                        rats_view(allocs@),
                    ),
                    self.config == old(self).config,
                    self.now == old(self).now,
                    self.latencies == old_latencies,
                    self.arrivals == old_arrivals,
                    self.num_pkts == old_num_pkts,
                    forall|k: int| 0 <= k < self.active@.len() ==> (
                    #[trigger] self.active@[k]).wf() && self.active@[k].state
                        != FlowState::Completed && self.active@[k].resource_req@.len()
                        == self.config.capacity@.len() && self.active@[k].t_arrival <= self.now,
                    forall|k: int| 0 <= k < updated@.len() ==> (#[trigger] updated@[k]).wf()
                        && updated@[k].state != FlowState::Completed
                        && updated@[k].resource_req@.len() == self.config.capacity@.len()
                        && updated@[k].t_arrival <= self.now,
                decreases self.active@.len(),
            {
                let mut p: Packet = self.active.remove(0);
                proof {
                    assert(av[i2 as int] == allocs@[i2 as int]@);
                    assert(crate::rat_seq::all_nonneg(av));
                }
                match p.set_allocation(&allocs[i2]) {
                    Ok(u) => {},
                    Err(e) => {
                        return Err(e);
                    },
                }
                updated.push(p);
                i2 += 1;
            }
            self.active = updated;
        }
        self.now = self.now + 1;
        Ok(())
    }
}

/// Run a whole simulation: `ticks` ticks from a fresh seed, then report.
pub fn run(config: SimConfig) -> (r: Result<SimReport, AllocError>)
    requires
        config_wf(config),
    ensures
        r matches Ok(rep) ==> rep.total_packets == rep.arrivals@.len() && rep.arrivals@.len()
            <= config.ticks && (forall|i: int| 0 <= i < rep.arrivals@.len() ==> record_wf(
            #[trigger] rep.arrivals@[i],
            config,
        ) && rep.arrivals@[i].tick < config.ticks),
        config.arrival_num == config.arrival_den ==> (r matches Ok(rep) ==> rep.arrivals@.len()
            == config.ticks),
        config.arrival_num == 0 ==> r is Ok,
        config.arrival_num == 0 ==> (r matches Ok(rep) ==> rep.arrivals@.len() == 0),
        r matches Ok(rep) ==> (forall|i: int|
            0 <= i < rep.latencies@.len() ==> #[trigger] rep.latencies@[i] < config.ticks),
        r matches Err(e) ==> e != AllocError::DimensionMismatch,
{
    let ghost cfg = config;
    let ticks: u64 = config.ticks;
    let mut sim = Simulator::new(config);
    let mut t: u64 = 0;
    while t < ticks
        invariant
            t <= ticks,
            sim.wf(),
            sim.config == cfg,
            cfg == config,
            cfg.ticks == ticks,
            sim.now == t,
            cfg.arrival_num == cfg.arrival_den ==> sim.arrivals@.len() == t,
            cfg.arrival_num == 0 ==> sim.arrivals@.len() == 0,
            cfg.arrival_num == 0 ==> sim.active@.len() == 0,
            forall|i: int| 0 <= i < sim.latencies@.len() ==> #[trigger] sim.latencies@[i]
                < sim.now,
        decreases ticks - t,
    {
        match sim.tick() {
            Ok(u) => {},
            Err(e) => {
                proof {
                    if cfg.arrival_num == 0 {
                        // an idle run never fails
                        assert(false);
                    }
                }
                return Err(e);
            },
        }
        t += 1;
    }
    proof {
        assert(sim.num_pkts == sim.arrivals@.len());
        assert(sim.num_pkts <= sim.now);
    }
    Ok(SimReport { total_packets: sim.num_pkts, latencies: sim.latencies, arrivals: sim.arrivals })
}

} // verus!
