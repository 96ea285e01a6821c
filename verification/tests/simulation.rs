use denarii::algorithms::AllocError;
use denarii::packet::{FlowState, Packet};
use denarii::rat::Rat;
use denarii::sim::{run, Policy, SimConfig};

fn r(n: i64) -> Rat {
    Rat::from_int(n)
}

fn to_f(x: &Rat) -> f64 {
    x.numerator() as f64 / x.denominator() as f64
}

// Unit demands keep every exact rational small over long runs; the wider
// demand range of `varied_config` exercises richer arithmetic over fewer
// ticks.
fn base_config(seed: u64, ticks: u64, policy: Policy) -> SimConfig {
    SimConfig {
        ticks,
        seed,
        capacity: vec![r(10), r(20)],
        arrival_num: 3,
        arrival_den: 10,
        service_lo: 10,
        service_hi: 20,
        demand_lo: 1,
        demand_hi: 2,
        policy,
    }
}

fn varied_config(seed: u64, ticks: u64, policy: Policy) -> SimConfig {
    let mut c = base_config(seed, ticks, policy);
    c.demand_hi = 11;
    c
}

#[test]
fn same_seed_same_run() {
    let a = run(base_config(1, 100, Policy::Drf)).unwrap();
    let b = run(base_config(1, 100, Policy::Drf)).unwrap();
    assert_eq!(a.total_packets, b.total_packets);
    assert_eq!(a.arrivals, b.arrivals);
    assert_eq!(a.latencies, b.latencies);
}

#[test]
fn different_seeds_may_differ() {
    let a = run(base_config(1, 200, Policy::Drf)).unwrap();
    let b = run(base_config(2, 200, Policy::Drf)).unwrap();
    // not a law, but with these parameters two long runs from different
    // seeds coinciding entirely would mean the seed is being ignored
    assert!(a.arrivals != b.arrivals || a.total_packets != b.total_packets);
}

#[test]
fn report_counts_match_arrivals() {
    let rep = run(base_config(7, 50, Policy::Ceei)).unwrap();
    assert_eq!(rep.total_packets as usize, rep.arrivals.len());
    assert!(rep.total_packets <= 50);
}

#[test]
fn arrivals_respect_configured_ranges() {
    let rep = run(varied_config(3, 10, Policy::Drf)).unwrap();
    for rec in &rep.arrivals {
        assert!(rec.tick < 10);
        assert!((10..20).contains(&rec.service));
        assert_eq!(rec.demand.len(), 2);
        for d in &rec.demand {
            assert!((1..11).contains(d));
        }
    }
}

#[test]
fn certain_arrival_fills_every_tick() {
    let mut c = base_config(5, 40, Policy::Drf);
    c.arrival_num = 1;
    c.arrival_den = 1;
    let rep = run(c).unwrap();
    assert_eq!(rep.total_packets, 40);
}

#[test]
fn zero_arrival_probability_stays_empty() {
    let mut c = base_config(5, 40, Policy::Drf);
    c.arrival_num = 0;
    let rep = run(c).unwrap();
    assert_eq!(rep.total_packets, 0);
    assert_eq!(rep.latencies.len(), 0);
}

#[test]
fn asset_policy_runs_deterministically() {
    let policy = || Policy::AssetFairness(vec![r(2), r(1)]);
    let a = run(base_config(11, 60, policy())).unwrap();
    let b = run(base_config(11, 60, policy())).unwrap();
    assert_eq!(a.arrivals, b.arrivals);
    assert_eq!(a.latencies, b.latencies);
}

#[test]
fn packet_progress_accumulates_until_completion() {
    let mut p = Packet::new(0, 5, r(2), vec![r(1)]);
    assert_eq!(p.state, FlowState::Pending);
    p.set_allocation(&r(1)).unwrap();
    assert_eq!(p.state, FlowState::Scheduled);
    assert!(p.is_scheduled());

    // rate 1 against demand 1: one unit of progress per tick
    let mut prev = 0.0f64;
    let mut t = 5u64;
    loop {
        t += 1;
        let done = p.step(t).unwrap();
        let progress = to_f(&p.adjusted_service_time);
        assert!(progress >= prev);
        prev = progress;
        if done {
            break;
        }
        assert!(t < 100, "flow should have completed");
    }
    assert!(p.is_completed());
    // needs strictly more than 2 units of service: completes on the third step
    assert_eq!(p.t_departure, 8);
    assert_eq!(p.latency(), 3);
}

#[test]
fn zero_allocation_never_completes() {
    let mut p = Packet::new(0, 0, r(2), vec![r(1)]);
    for t in 1..50u64 {
        let done = p.step(t).unwrap();
        assert!(!done);
    }
    assert_eq!(p.state, FlowState::Pending);

    // a zero-valued grant on a scheduled flow advances nothing either
    let mut q = Packet::new(1, 0, r(2), vec![r(1)]);
    q.set_allocation(&r(1)).unwrap();
    q.step(1).unwrap();
    q.set_allocation(&r(0)).unwrap();
    assert_eq!(q.state, FlowState::Scheduled);
    for t in 2..50u64 {
        let done = q.step(t).unwrap();
        assert!(!done);
    }
    assert_eq!(q.adjusted_service_time.numerator(), 1);
    assert_eq!(q.adjusted_service_time.denominator(), 1);
}

#[test]
fn step_reports_exhausted_progress_range() {
    // two coprime denominators whose product leaves the representable
    // range: the exact sum cannot be recorded
    let mut p = Packet::new(0, 0, Rat::from_int(i64::MAX), vec![r(1)]);
    p.set_allocation(&Rat::new(1, 3_100_000_003)).unwrap();
    p.adjusted_service_time = Rat::new(1, 3_100_000_001);
    assert!(matches!(p.step(1), Err(AllocError::NumericOverflow)));
    // the flow is left exactly as it was
    assert_eq!(p.adjusted_service_time.denominator(), 3_100_000_001);
    assert_eq!(p.state, FlowState::Scheduled);
}

#[test]
fn step_advances_by_the_exact_ratio() {
    // a third of a unit of rate against unit demand: progress is exactly 1/3
    let mut p = Packet::new(0, 0, r(10), vec![r(3)]);
    p.set_allocation(&Rat::new(1, 3)).unwrap();
    assert_eq!(p.resource_alloc[0].numerator(), 1);
    assert_eq!(p.resource_alloc[0].denominator(), 1);
    p.step(1).unwrap();
    assert_eq!(p.adjusted_service_time.numerator(), 1);
    assert_eq!(p.adjusted_service_time.denominator(), 3);
    p.step(2).unwrap();
    assert_eq!(p.adjusted_service_time.numerator(), 2);
    assert_eq!(p.adjusted_service_time.denominator(), 3);
}

#[test]
fn zero_capacity_resource_is_accepted_by_ceei_runs() {
    // a zero capacity is a valid configuration for the max-sum policy:
    // every flow demanding that resource is pinned to zero and never
    // completes
    let mut c = base_config(9, 30, Policy::Ceei);
    c.capacity = vec![r(0), r(20)];
    let rep = run(c).unwrap();
    assert_eq!(rep.latencies.len(), 0);
}

#[test]
fn pending_flow_with_zero_rate_stays_pending() {
    let mut p = Packet::new(0, 0, r(5), vec![r(2), r(3)]);
    p.set_allocation(&r(0)).unwrap();
    assert_eq!(p.state, FlowState::Pending);
    assert_eq!(p.resource_alloc.len(), 0);
    p.set_allocation(&Rat::new(1, 2)).unwrap();
    assert_eq!(p.state, FlowState::Scheduled);
    // the grant scales the demand vector
    assert_eq!(p.resource_alloc.len(), 2);
    assert_eq!(to_f(&p.resource_alloc[0]), 1.0);
    assert_eq!(to_f(&p.resource_alloc[1]), 1.5);
}
