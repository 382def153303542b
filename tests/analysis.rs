use srp::common::{Task, Tasks, Trace};
use srp::id_prio::IdPrio;

fn trace(id: &str, start: u32, end: u32, inner: Vec<Trace>) -> Trace {
    Trace { id: id.to_string(), start, end, inner }
}

fn task(id: &str, prio: u8, deadline: u32, inter_arrival: u32, trace: Trace) -> Task {
    Task { id: id.to_string(), prio, deadline, inter_arrival, trace }
}

fn nested_r1_r2() -> Trace {
    trace("R1", 10, 20, vec![trace("R2", 12, 14, vec![]), trace("R2", 14, 18, vec![])])
}

fn ceilings_r1_r2() -> IdPrio {
    let mut ip = IdPrio::new();
    ip.insert("R1".to_string(), 1);
    ip.insert("R2".to_string(), 2);
    ip
}

// T1 (prio 1, no resources), T2 (prio 2, holds R1 for 10), T3 (prio 3, holds R2 for 10).
fn three_tasks() -> Tasks {
    Tasks(vec![
        task("T1", 1, 100, 100, trace("T1", 0, 10, vec![])),
        task("T2", 2, 200, 200, trace("T2", 0, 30, vec![trace("R1", 10, 20, vec![])])),
        task("T3", 3, 50, 50, trace("T3", 0, 30, vec![trace("R2", 10, 20, vec![])])),
    ])
}

// L (prio 1) holds R for 10; M (prio 2) holds nothing; H (prio 3) holds R for 2.
fn shared_resource_tasks() -> Tasks {
    Tasks(vec![
        task("L", 1, 100, 100, trace("L", 0, 20, vec![trace("R", 5, 15, vec![])])),
        task("M", 2, 50, 50, trace("M", 0, 10, vec![])),
        task("H", 3, 20, 20, trace("H", 0, 5, vec![trace("R", 1, 3, vec![])])),
    ])
}

#[test]
fn test_blocking() {
    let trace = nested_r1_r2();
    let t0 = Task::default();
    let t1 = Task { prio: 1, ..Task::default() };
    let ip = ceilings_r1_r2();

    let cs = trace.blocking(&t0, &ip);
    assert_eq!(cs, 10);

    let cs = trace.blocking(&t1, &ip);
    assert_eq!(cs, 10);
}

#[test]
fn ceiling_equal_to_priority_blocks() {
    let trace = nested_r1_r2();
    let t2 = Task { prio: 2, ..Task::default() };
    // R1's ceiling 1 is below 2; R2's ceiling 2 equals it, so the longer R2 section counts.
    assert_eq!(trace.blocking(&t2, &ceilings_r1_r2()), 4);
}

#[test]
fn ceiling_below_priority_does_not_block() {
    let trace = nested_r1_r2();
    let t3 = Task { prio: 3, ..Task::default() };
    assert_eq!(trace.blocking(&t3, &ceilings_r1_r2()), 0);
}

#[test]
fn unknown_identifier_does_not_block() {
    let trace = trace("X", 0, 50, vec![trace("Y", 10, 40, vec![])]);
    assert_eq!(trace.blocking(&Task::default(), &IdPrio::new()), 0);
}

#[test]
fn trace_and_task_wcet() {
    let t = nested_r1_r2();
    assert_eq!(t.wcet(), 10);
    assert_eq!(t.inner[1].wcet(), 4);
    let tk = task("A", 1, 10, 10, trace("A", 3, 10, vec![]));
    assert_eq!(tk.wcet(), 7);
}

#[test]
fn task_blocking_starts_at_root() {
    let ts = shared_resource_tasks();
    let ip = ts.pre_analysis();
    assert_eq!(ts.0[0].blocking(&ts.0[2], &ip), 10);
    assert_eq!(ts.0[1].blocking(&ts.0[2], &ip), 0);
}

#[test]
fn id_prio_insert_and_get() {
    let mut ip = IdPrio::new();
    assert_eq!(ip.get(&"R".to_string()), None);
    ip.insert("R".to_string(), 3);
    ip.insert("S".to_string(), 1);
    assert_eq!(ip.get(&"R".to_string()), Some(3));
    ip.insert("R".to_string(), 2);
    assert_eq!(ip.get(&"R".to_string()), Some(2));
    assert_eq!(ip.get(&"S".to_string()), Some(1));
    assert_eq!(ip.get(&"T".to_string()), None);
}

#[test]
fn pre_analysis_takes_highest_user() {
    let ts = shared_resource_tasks();
    let ip = ts.pre_analysis();
    assert_eq!(ip.get(&"R".to_string()), Some(3));
    assert_eq!(ip.get(&"L".to_string()), Some(1));
    assert_eq!(ip.get(&"M".to_string()), Some(2));
    assert_eq!(ip.get(&"H".to_string()), Some(3));
    assert_eq!(ip.get(&"Q".to_string()), None);
}

#[test]
fn pre_analysis_nested_resources() {
    let ts = Tasks(vec![
        task("A", 5, 10, 10, trace("A", 0, 10, vec![nested_r1_r2()])),
        task("B", 7, 10, 10, trace("B", 0, 10, vec![trace("R2", 1, 2, vec![])])),
    ]);
    let ip = ts.pre_analysis();
    assert_eq!(ip.get(&"R1".to_string()), Some(5));
    assert_eq!(ip.get(&"R2".to_string()), Some(7));
}

#[test]
fn pre_analysis_of_empty_set() {
    let ip = Tasks(vec![]).pre_analysis();
    assert_eq!(ip.get(&"T1".to_string()), None);
}

#[test]
fn lower_and_higher_keep_order() {
    let ts = three_tasks();
    let lower = ts.lower(&ts.0[2]);
    let ids: Vec<String> = lower.0.iter().map(|t| t.id.clone()).collect();
    assert_eq!(ids, vec!["T1".to_string(), "T2".to_string()]);
    let higher = ts.higher(&ts.0[0]);
    let ids: Vec<String> = higher.0.iter().map(|t| t.id.clone()).collect();
    assert_eq!(ids, vec!["T2".to_string(), "T3".to_string()]);
    assert_eq!(higher.0[1], ts.0[2]);
    assert!(ts.higher(&ts.0[2]).0.is_empty());
    assert!(ts.lower(&ts.0[0]).0.is_empty());
}

#[test]
fn set_blocking_is_longest_lower_section() {
    let ts = shared_resource_tasks();
    let ip = ts.pre_analysis();
    assert_eq!(ts.blocking(&ts.0[2], &ip), 10);
    assert_eq!(ts.blocking(&ts.0[1], &ip), 10);
    assert_eq!(ts.blocking(&ts.0[0], &ip), 0);
}

#[test]
fn busy_period_exact_and_bounded() {
    let ts = shared_resource_tasks();
    assert_eq!(ts.busy_period(&ts.0[0], 0, true), Some(45));
    assert_eq!(ts.busy_period(&ts.0[0], 0, false), Some(80));
    assert_eq!(ts.busy_period(&ts.0[1], 10, true), Some(30));
    assert_eq!(ts.busy_period(&ts.0[1], 10, false), Some(35));
    assert_eq!(ts.busy_period(&ts.0[2], 10, true), Some(15));
}

#[test]
fn busy_period_rec_from_given_estimate() {
    let ts = shared_resource_tasks();
    let higher = ts.higher(&ts.0[0]);
    assert_eq!(higher.busy_period_rec(&ts.0[0], 0, 20), Some(45));
    assert_eq!(ts.busy_period_rec(&ts.0[0], 0, 45), Some(45));
    assert_eq!(ts.busy_period_rec(&ts.0[0], 90, 20), None);
}

#[test]
fn response_time_shared_resource() {
    let ts = shared_resource_tasks();
    let r = ts.response_time(true);
    assert_eq!(r.0.len(), 3);
    let rows: Vec<(u32, u32, Option<u32>, Option<u32>)> =
        r.0.iter().map(|x| (x.wcet, x.blocking, x.response_time, x.interference)).collect();
    assert_eq!(
        rows,
        vec![(20, 0, Some(45), Some(25)), (10, 10, Some(30), Some(10)), (5, 10, Some(15), Some(0))]
    );
    assert!(r.0.iter().all(|x| x.exact));
    assert_eq!(r.0[1].task, ts.0[1]);
}

#[test]
fn single_task_missing_its_deadline() {
    let ts = Tasks(vec![task("T", 1, 5, 5, trace("T", 0, 10, vec![]))]);
    for exact in [true, false] {
        let r = ts.response_time(exact);
        assert_eq!(r.0[0].blocking, 0);
        assert_eq!(r.0[0].wcet, 10);
        assert_eq!(r.0[0].response_time, None);
        assert_eq!(r.0[0].interference, None);
    }
    assert_eq!(ts.busy_period(&ts.0[0], 0, true), None);
}

#[test]
fn three_task_scenario() {
    let ts = three_tasks();
    let exact = ts.response_time(true);
    let blockings: Vec<u32> = exact.0.iter().map(|x| x.blocking).collect();
    assert_eq!(blockings, vec![0, 0, 0]);
    let rts: Vec<Option<u32>> = exact.0.iter().map(|x| x.response_time).collect();
    assert_eq!(rts, vec![None, Some(90), Some(30)]);
    assert_eq!(exact.0[1].interference, Some(60));
    let bounded = ts.response_time(false);
    let rts: Vec<Option<u32>> = bounded.0.iter().map(|x| x.response_time).collect();
    assert_eq!(rts, vec![None, Some(180), Some(30)]);
    assert!(bounded.0.iter().all(|x| !x.exact));
}

#[test]
fn no_critical_sections_no_blocking() {
    let ts = Tasks(vec![
        task("A", 1, 100, 100, trace("A", 0, 30, vec![])),
        task("B", 2, 100, 100, trace("B", 0, 20, vec![])),
        task("C", 3, 100, 100, trace("C", 0, 10, vec![])),
    ]);
    for exact in [true, false] {
        assert!(ts.response_time(exact).0.iter().all(|x| x.blocking == 0));
    }
}

#[test]
fn blocking_within_longest_lower_section() {
    let ts = Tasks(vec![
        task("A", 1, 500, 500, trace("A", 0, 100, vec![trace("R", 10, 40, vec![trace("S", 12, 20, vec![])])])),
        task("B", 2, 500, 500, trace("B", 0, 50, vec![trace("S", 0, 25, vec![])])),
        task("C", 3, 500, 500, trace("C", 0, 10, vec![trace("R", 1, 2, vec![])])),
    ]);
    let r = ts.response_time(true);
    // The longest sections: A's R (30) below B and C; none below A.
    assert_eq!(r.0[2].blocking, 30);
    assert!(r.0[2].blocking <= 30);
    // B is blocked by the whole of A's R (ceiling 3 >= 2), which holds the S nested in it.
    assert_eq!(r.0[1].blocking, 30);
    assert_eq!(r.0[0].blocking, 0);
}

#[test]
fn response_time_covers_execution_and_blocking() {
    for ts in [three_tasks(), shared_resource_tasks()] {
        for exact in [true, false] {
            for x in ts.response_time(exact).0 {
                if let Some(rt) = x.response_time {
                    assert!(rt >= x.wcet + x.blocking);
                    assert_eq!(x.interference, Some(rt - x.wcet - x.blocking));
                } else {
                    assert_eq!(x.interference, None);
                }
            }
        }
    }
}

#[test]
fn raising_priority_does_not_raise_response_time() {
    let ts = shared_resource_tasks();
    let low = ts.0[1].clone();
    let raised = Task { prio: 9, ..ts.0[1].clone() };
    for exact in [true, false] {
        let before = ts.busy_period(&low, 10, exact);
        let after = ts.busy_period(&raised, 10, exact);
        assert!(after.unwrap() <= before.unwrap());
    }
    // T1 of the three-task set misses its deadline at priority 1 and meets it at the top.
    let ts = three_tasks();
    let raised = Task { prio: 4, ..ts.0[0].clone() };
    assert_eq!(ts.busy_period(&ts.0[0], 0, true), None);
    assert_eq!(ts.busy_period(&raised, 0, true), Some(10));
}

#[test]
fn analysis_twice_gives_the_same() {
    let ts = three_tasks();
    for exact in [true, false] {
        assert_eq!(ts.response_time(exact), ts.response_time(exact));
    }
    let ts = shared_resource_tasks();
    assert_eq!(ts.response_time(true), ts.response_time(true));
}

#[test]
fn busy_period_converges_over_many_steps() {
    let ts = Tasks(vec![
        task("T", 1, 106, 1000, trace("T", 0, 1, vec![])),
        task("A", 2, 1000, 12, trace("A", 0, 5, vec![])),
        task("B", 3, 1000, 11, trace("B", 0, 3, vec![])),
        task("C", 4, 1000, 16, trace("C", 0, 4, vec![])),
    ]);
    assert_eq!(ts.busy_period(&ts.0[0], 0, true), Some(92));
}

#[test]
fn large_values_miss_deadline_without_overflow() {
    let big = task("T", 1, u32::MAX, 1, trace("T", 0, u32::MAX, vec![]));
    let ts = Tasks(vec![big.clone(), task("H", 2, u32::MAX, 1, trace("H", 0, u32::MAX, vec![]))]);
    assert_eq!(ts.busy_period(&big, 0, true), None);
    assert_eq!(ts.busy_period(&big, 0, false), None);
    let small = task("S", 1, u32::MAX, 10, trace("S", 0, 10, vec![]));
    assert_eq!(Tasks(vec![]).busy_period(&small, u32::MAX, true), None);
    assert_eq!(Tasks(vec![]).busy_period(&small, u32::MAX - 10, true), Some(u32::MAX));
}

#[test]
fn clone_and_default() {
    let t = task("A", 3, 7, 9, trace("A", 0, 10, vec![nested_r1_r2()]));
    assert_eq!(t.clone(), t);
    let d = Task::default();
    assert_eq!(d.id, "");
    assert_eq!((d.prio, d.deadline, d.inter_arrival), (0, 0, 0));
    assert_eq!(d.trace, Trace::default());
    assert!(d.trace.inner.is_empty());
}
