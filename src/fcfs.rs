use vstd::prelude::*;
use crate::process::{Process, Totals, seq_sum, exec_times, as_ints, summarize, lemma_seq_sum_bounds};

verus! {

/// The clock that first-come-first-served reads for process `j`: the
/// execution times of the processes before it, added up with no regard to
/// idle time.
pub open spec fn fcfs_clock(p: Seq<Process>, j: int) -> int {
    seq_sum(exec_times(p).take(j))
}

/// Waiting time of process `j` under first-come-first-served.
pub open spec fn fcfs_wait(p: Seq<Process>, j: int) -> int {
    if fcfs_clock(p, j) >= p[j].arrival_time {
        fcfs_clock(p, j) - p[j].arrival_time
    } else {
        0
    }
}

/// Waiting times of all processes under first-come-first-served.
pub open spec fn fcfs_waits(p: Seq<Process>) -> Seq<int> {
    Seq::new(p.len(), |j: int| fcfs_wait(p, j))
}

/// Waiting time of each process when they run to completion in input order.
pub fn fcfs_waiting_times(processes: &[Process]) -> (r: Vec<u64>)
    requires
        processes@.len() <= u32::MAX,
    ensures
        r@.len() == processes@.len(),
        as_ints(r@) == fcfs_waits(processes@),
{
    let ghost p = processes@;
    let n = processes.len();
    let mut r: Vec<u64> = Vec::new();
    let mut clock: u64 = 0;
    let mut i: usize = 0;
    while i < n
        invariant
            n == p.len(),
            p == processes@,
            n <= u32::MAX,
            0 <= i <= n,
            clock == fcfs_clock(p, i as int),
            r@.len() == i,
            forall|t: int| 0 <= t < i ==> r@[t] == fcfs_wait(p, t),
        decreases n - i,
    {
        let proc = &processes[i];
        let arrival = proc.arrival_time as u64;
        let wait = if clock >= arrival {
            clock - arrival
        } else {
            0
        };
        r.push(wait);
        proof {
            let e = exec_times(p);
            assert(e.take(i + 1).drop_last() =~= e.take(i as int));
            lemma_seq_sum_bounds(e.take(i + 1), u32::MAX as int);
            assert((i + 1) * u32::MAX <= u32::MAX * u32::MAX) by (nonlinear_arith)
                requires i + 1 <= u32::MAX;
        }
        clock = clock + proc.execution_time as u64;
        i = i + 1;
    }
    assert(as_ints(r@) =~= fcfs_waits(p));
    r
}

/// Totals of the first-come-first-served schedule.
pub fn fcfs(processes: &[Process]) -> (r: Totals)
    requires
        processes@.len() <= u32::MAX,
    ensures
        r.describes(processes@, fcfs_waits(processes@)),
{
    let w = fcfs_waiting_times(processes);
    summarize(processes, w.as_slice())
}

} // verus!
