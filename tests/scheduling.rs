use scheduler::fcfs::{fcfs, fcfs_waiting_times};
use scheduler::process::{arrival_order, summarize, Process, Totals};
use scheduler::round_robin::{round_robin, round_robin_waiting_times, Simulation};

fn procs(specs: &[(&str, u32, u32)]) -> Vec<Process> {
    specs
        .iter()
        .map(|&(name, exec, arr)| Process::new(name.to_string(), exec, arr))
        .collect()
}

fn averages(t: &Totals) -> (f32, f32) {
    (t.turnaround as f32 / t.count as f32, t.waiting as f32 / t.count as f32)
}

fn close(a: f32, b: f32) -> bool {
    (a - b).abs() < 0.01
}

#[test]
fn scenario_a_round_robin() {
    let p = procs(&[("one", 5, 0), ("two", 3, 1), ("three", 8, 2)]);
    assert_eq!(round_robin_waiting_times(&p, 1), vec![5, 5, 6]);
    let t = round_robin(&p, 1);
    assert_eq!((t.turnaround, t.waiting, t.count), (32, 16, 3));
    let (at, aw) = averages(&t);
    assert!(close(at, 10.67));
    assert!(close(aw, 5.33));
}

#[test]
fn scenario_a_fcfs() {
    let p = procs(&[("one", 5, 0), ("two", 3, 1), ("three", 8, 2)]);
    assert_eq!(fcfs_waiting_times(&p), vec![0, 4, 6]);
    let t = fcfs(&p);
    assert_eq!((t.turnaround, t.waiting, t.count), (26, 10, 3));
    let (at, _) = averages(&t);
    assert!(close(at, 8.67));
}

#[test]
fn scenario_b_single_process() {
    let p = procs(&[("one", 10, 0)]);
    for t in [round_robin(&p, 1), round_robin(&p, 3), round_robin(&p, 10), fcfs(&p)] {
        let (at, aw) = averages(&t);
        assert_eq!(at, 10.0);
        assert_eq!(aw, 0.0);
    }
}

#[test]
fn single_late_process_never_waits() {
    let p = procs(&[("late", 5, 7)]);
    assert_eq!(round_robin_waiting_times(&p, 2), vec![0]);
    assert_eq!(fcfs_waiting_times(&p), vec![0]);
    let t = round_robin(&p, 2);
    assert_eq!((t.turnaround, t.waiting), (5, 0));
}

#[test]
fn equal_arrivals_run_in_index_order() {
    let p = procs(&[("first", 2, 0), ("second", 2, 0)]);
    assert_eq!(round_robin_waiting_times(&p, 1), vec![1, 2]);
    let q = procs(&[("long", 3, 0), ("short", 2, 0)]);
    assert_eq!(round_robin_waiting_times(&q, 1), vec![2, 2]);
}

#[test]
fn large_slice_matches_fcfs() {
    let p = procs(&[("a", 4, 0), ("b", 2, 1), ("c", 6, 3), ("d", 1, 5)]);
    let rr = round_robin(&p, 6);
    let fc = fcfs(&p);
    assert_eq!(round_robin_waiting_times(&p, 6), fcfs_waiting_times(&p));
    assert_eq!((rr.turnaround, rr.waiting), (fc.turnaround, fc.waiting));
    assert_eq!(fcfs_waiting_times(&p), vec![0, 3, 3, 7]);
}

#[test]
fn idle_gap_separates_fcfs_from_round_robin() {
    let p = procs(&[("a", 1, 0), ("b", 1, 5), ("c", 1, 5)]);
    assert_eq!(fcfs_waiting_times(&p), vec![0, 0, 0]);
    assert_eq!(round_robin_waiting_times(&p, 1), vec![0, 0, 1]);
}

#[test]
fn turnaround_is_waiting_plus_execution() {
    let p = procs(&[("one", 5, 0), ("two", 3, 1), ("three", 8, 2)]);
    for slice in 1..5u32 {
        let t = round_robin(&p, slice);
        assert_eq!(t.turnaround, t.waiting + 16);
    }
    let t = fcfs(&p);
    assert_eq!(t.turnaround, t.waiting + 16);
}

#[test]
fn repeated_calls_agree() {
    let p = procs(&[("x", 7, 0), ("y", 2, 2), ("z", 4, 3), ("w", 9, 4)]);
    let a = round_robin(&p, 3);
    let b = round_robin(&p, 3);
    assert_eq!((a.turnaround, a.waiting, a.count), (b.turnaround, b.waiting, b.count));
    let c = fcfs(&p);
    let d = fcfs(&p);
    assert_eq!((c.turnaround, c.waiting, c.count), (d.turnaround, d.waiting, d.count));
}

#[test]
fn empty_input_gives_zero_totals() {
    let p: Vec<Process> = Vec::new();
    let t = round_robin(&p, 1);
    assert_eq!((t.turnaround, t.waiting, t.count), (0, 0, 0));
    let t = fcfs(&p);
    assert_eq!((t.turnaround, t.waiting, t.count), (0, 0, 0));
}

#[test]
fn zero_execution_time_completes_on_arrival() {
    let p = procs(&[("a", 3, 0), ("empty", 0, 1), ("b", 2, 1)]);
    assert_eq!(round_robin_waiting_times(&p, 2), vec![0, 2, 2]);
    assert_eq!(fcfs_waiting_times(&p), vec![0, 2, 2]);
}

#[test]
fn largest_times_do_not_overflow() {
    let m = u32::MAX;
    let p = procs(&[("a", m, 0), ("b", m, m), ("c", m, m)]);
    let w = round_robin_waiting_times(&p, m);
    assert_eq!(w, vec![0, 0, m as u64]);
    let t = round_robin(&p, m);
    assert_eq!(t.waiting, m as u128);
    assert_eq!(t.turnaround, 4 * m as u128);
    assert_eq!(fcfs_waiting_times(&p), vec![0, 0, m as u64]);
}

#[test]
fn summarize_adds_execution_times() {
    let p = procs(&[("a", 4, 0), ("b", 6, 0)]);
    let t = summarize(&p, &[3, 10]);
    assert_eq!((t.turnaround, t.waiting, t.count), (23, 13, 2));
}

#[test]
fn simulation_steps_one_dispatch_at_a_time() {
    let p = procs(&[("a", 3, 0), ("b", 1, 1)]);
    let mut sim = Simulation::new(&p);
    sim.admit_arrivals(&p);
    assert_eq!(sim.queue.len(), 1);
    sim.dispatch_next(&p, 2);
    assert_eq!(sim.clock, 2);
    assert_eq!(sim.remaining, vec![1, 1]);
    sim.admit_arrivals(&p);
    assert_eq!(sim.queue.iter().copied().collect::<Vec<usize>>(), vec![0, 1]);
    sim.dispatch_next(&p, 2);
    assert_eq!((sim.clock, sim.completed), (3, 1));
    assert_eq!(sim.waiting, vec![0, 0]);
    assert!(sim.finished[0]);
}

#[test]
fn arrival_order_is_stable() {
    let p = procs(&[("a", 1, 4), ("b", 1, 2), ("c", 1, 4), ("d", 1, 0), ("e", 1, 2)]);
    assert_eq!(arrival_order(&p), vec![3, 1, 4, 0, 2]);
    let sorted = procs(&[("x", 1, 0), ("y", 1, 0), ("z", 1, 9)]);
    assert_eq!(arrival_order(&sorted), vec![0, 1, 2]);
    assert_eq!(arrival_order(&[]), Vec::<usize>::new());
}
