use vstd::prelude::*;
use crate::process::{Process, Totals, exec_times, turnarounds, sorted_by_arrival};
use crate::fcfs::{fcfs_clock, fcfs_waits};
use crate::round_robin::{
    SimState, admissible, arrivals, admission, dispatch, is_done, state_after, initial_state,
    round_robin_outcome,
};

verus! {

/// The totals are fixed by the processes and their waiting times.
pub proof fn lemma_totals_deterministic(p: Seq<Process>, w: Seq<int>, r1: Totals, r2: Totals)
    requires
        r1.describes(p, w),
        r2.describes(p, w),
    ensures
        r1 == r2,
{
}

/// A single process never waits under first-come-first-served, and its
/// turnaround is its execution time.
pub proof fn lemma_fcfs_single(p: Seq<Process>)
    requires
        p.len() == 1,
    ensures
        fcfs_waits(p) == seq![0int],
        turnarounds(p, fcfs_waits(p)) == seq![p[0].execution_time as int],
{
    assert(exec_times(p).take(0) =~= Seq::<int>::empty());
    assert(fcfs_waits(p) =~= seq![0int]);
    assert(turnarounds(p, fcfs_waits(p)) =~= seq![p[0].execution_time as int]);
}

/// The shape of a one-process simulation: not yet arrived, running, or done.
spec fn single_inv(p: Seq<Process>, s: SimState) -> bool {
    let a = p[0].arrival_time as int;
    let e = p[0].execution_time as int;
    &&& s.remaining.len() == 1
    &&& s.waiting.len() == 1
    &&& s.queued.len() == 1
    &&& s.finished.len() == 1
    &&& {
        ||| (!s.queued[0] && !s.finished[0] && s.queue.len() == 0 && s.remaining[0] == e
            && s.completed == 0 && s.clock <= a)
        ||| (s.queued[0] && !s.finished[0] && s.queue == seq![0int] && s.completed == 0
            && 0 <= s.remaining[0] <= e && s.clock - a == e - s.remaining[0])
        ||| (!s.queued[0] && s.finished[0] && s.completed == 1 && s.waiting[0] == 0)
    }
}

proof fn lemma_single_inv(p: Seq<Process>, slice: int, k: nat)
    requires
        p.len() == 1,
        slice > 0,
    ensures
        single_inv(p, state_after(p, slice, k)),
    decreases k,
{
    reveal_with_fuel(arrivals, 2);
    if k == 0 {
        assert(exec_times(p)[0] == p[0].execution_time);
    } else {
        lemma_single_inv(p, slice, (k - 1) as nat);
        let s = state_after(p, slice, (k - 1) as nat);
        if !is_done(p, s) {
            let s1 = admission(p, s);
            if s.queued[0] {
                assert(!admissible(p, s, 0));
                assert(s1.queue =~= seq![0int]);
            } else if admissible(p, s, 0) {
                assert(s1.queue =~= seq![0int]);
            } else {
                assert(s1.queue =~= Seq::<int>::empty());
            }
            let s2 = dispatch(p, slice, s1);
            if s1.queue.len() > 0 && s1.remaining[0] > slice {
                assert(s2.queue =~= seq![0int]);
            }
        }
    }
}

/// A single process never waits under round robin, whatever the slice, and
/// its turnaround is its execution time.
pub proof fn lemma_round_robin_single(p: Seq<Process>, slice: int, w: Seq<int>)
    requires
        p.len() == 1,
        slice > 0,
        round_robin_outcome(p, slice, w),
    ensures
        w == seq![0int],
        turnarounds(p, w) == seq![p[0].execution_time as int],
{
    let k = choose|k: nat| is_done(p, #[trigger] state_after(p, slice, k)) && state_after(p, slice, k).waiting == w;
    lemma_single_inv(p, slice, k);
    assert(w =~= seq![0int]);
    assert(turnarounds(p, w) =~= seq![p[0].execution_time as int]);
}

/// Time at which a non-preemptive processor, running the processes in input
/// order and idling until each arrives, is free for process `j`.
pub open spec fn cpu_free_at(p: Seq<Process>, j: int) -> int
    decreases j,
{
    if j <= 0 {
        0
    } else {
        let prev = cpu_free_at(p, j - 1);
        let a = p[j - 1].arrival_time as int;
        (if prev >= a { prev } else { a }) + p[j - 1].execution_time
    }
}

/// Time at which process `j` starts on that processor.
pub open spec fn start_time(p: Seq<Process>, j: int) -> int {
    if cpu_free_at(p, j) >= p[j].arrival_time {
        cpu_free_at(p, j)
    } else {
        p[j].arrival_time as int
    }
}

/// Waiting times on that processor.
pub open spec fn nonpreemptive_waits(p: Seq<Process>) -> Seq<int> {
    Seq::new(p.len(), |j: int| start_time(p, j) - p[j].arrival_time)
}

/// The first index at or after `from` whose arrival is later than `c`, or
/// the number of processes.
spec fn first_late(p: Seq<Process>, from: int, c: int) -> int
    decreases p.len() - from,
{
    if from >= p.len() {
        p.len() as int
    } else if p[from].arrival_time > c {
        from
    } else {
        first_late(p, from + 1, c)
    }
}

proof fn lemma_first_late(p: Seq<Process>, from: int, c: int)
    requires
        0 <= from <= p.len(),
    ensures
        from <= first_late(p, from, c) <= p.len(),
        forall|i: int| from <= i < first_late(p, from, c) ==> p[i].arrival_time <= c,
        first_late(p, from, c) < p.len() ==> p[first_late(p, from, c)].arrival_time > c,
    decreases p.len() - from,
{
    if from < p.len() && p[from].arrival_time <= c {
        lemma_first_late(p, from + 1, c);
    }
}

proof fn lemma_arrivals_range(p: Seq<Process>, s: SimState, k: int, lo: int, hi: int)
    requires
        0 <= k <= p.len(),
        0 <= lo <= hi <= p.len(),
        forall|i: int| 0 <= i < p.len() ==> admissible(p, s, i) == (lo <= i < hi),
    ensures
        arrivals(p, s, k) =~= Seq::new(
            (if k <= lo { 0 } else if k <= hi { k - lo } else { hi - lo }) as nat,
            |t: int| lo + t,
        ),
    decreases k,
{
    if k > 0 {
        lemma_arrivals_range(p, s, k - 1, lo, hi);
    }
}

/// The shape of a simulation that runs sorted processes one after another:
/// the first `m` are done, `m..q` wait in the queue in index order.
spec fn serial_inv(p: Seq<Process>, s: SimState, m: int, q: int) -> bool {
    let n = p.len() as int;
    &&& 0 <= m <= q <= n
    &&& s.completed == m
    &&& s.remaining.len() == n
    &&& s.waiting.len() == n
    &&& s.queued.len() == n
    &&& s.finished.len() == n
    &&& forall|i: int| 0 <= i < n ==> s.finished[i] == (i < m)
    &&& forall|i: int| 0 <= i < n ==> s.queued[i] == (m <= i < q)
    &&& s.queue =~= Seq::new((q - m) as nat, |t: int| m + t)
    &&& forall|i: int| 0 <= i < n ==> s.remaining[i] == if i < m { 0 } else { p[i].execution_time as int }
    &&& forall|i: int| 0 <= i < n ==> s.waiting[i] == if i < m { nonpreemptive_waits(p)[i] } else { 0 }
    &&& forall|i: int| 0 <= i < q ==> p[i].arrival_time <= s.clock
    &&& m < n ==> cpu_free_at(p, m) <= s.clock <= start_time(p, m)
    &&& m < n && s.clock > cpu_free_at(p, m) ==> q == m
}

proof fn lemma_serial_inv(p: Seq<Process>, slice: int, k: nat) -> (r: (int, int))
    requires
        sorted_by_arrival(p),
        forall|i: int| 0 <= i < p.len() ==> p[i].execution_time <= slice,
        slice > 0,
    ensures
        serial_inv(p, state_after(p, slice, k), r.0, r.1),
    decreases k,
{
    let n = p.len() as int;
    if k == 0 {
        let s = initial_state(p);
        assert forall|i: int| 0 <= i < n implies s.remaining[i] == if i < 0 { 0 } else { p[i].execution_time as int } by {
            assert(exec_times(p)[i] == p[i].execution_time);
        }
        (0, 0)
    } else {
        let (m, q) = lemma_serial_inv(p, slice, (k - 1) as nat);
        let s = state_after(p, slice, (k - 1) as nat);
        if is_done(p, s) {
            (m, q)
        } else {
            let c = s.clock;
            lemma_first_late(p, q, c);
            let q2 = first_late(p, q, c);
            assert forall|i: int| 0 <= i < n implies admissible(p, s, i) == (q <= i < q2) by {
                if i >= q2 && q2 < n {
                    assert(p[q2].arrival_time <= p[i].arrival_time);
                }
            }
            lemma_arrivals_range(p, s, n, q, q2);
            let s1 = admission(p, s);
            assert(s1.queue =~= Seq::new((q2 - m) as nat, |t: int| m + t));
            let s2 = dispatch(p, slice, s1);
            if c >= p[m].arrival_time {
                assert(m < q2) by {
                    if m == q {
                        assert(admissible(p, s, m));
                    }
                };
                assert(s1.queue[0] == m);
                assert(c == start_time(p, m));
                assert(s2.clock == cpu_free_at(p, m + 1));
                assert(s2.queue =~= Seq::new((q2 - (m + 1)) as nat, |t: int| (m + 1) + t));
                if m + 1 < n {
                    assert(cpu_free_at(p, m + 1) <= start_time(p, m + 1));
                }
                (m + 1, q2)
            } else {
                assert(m == q) by {
                    if m < q {
                        assert(p[m].arrival_time <= c);
                    }
                };
                assert(q2 == q) by {
                    if q2 > q {
                        assert(p[q].arrival_time <= c);
                    }
                };
                assert(s2.queue =~= s.queue);
                (m, q)
            }
        }
    }
}

/// With arrivals in order and a time slice no shorter than any execution
/// time, round robin never preempts: each process waits exactly as on a
/// processor that runs them one after another in input order.
pub proof fn lemma_round_robin_without_preemption(p: Seq<Process>, slice: int, w: Seq<int>)
    requires
        sorted_by_arrival(p),
        forall|i: int| 0 <= i < p.len() ==> p[i].execution_time <= slice,
        slice > 0,
        round_robin_outcome(p, slice, w),
    ensures
        w == nonpreemptive_waits(p),
{
    let k = choose|k: nat| is_done(p, #[trigger] state_after(p, slice, k)) && state_after(p, slice, k).waiting == w;
    let (m, q) = lemma_serial_inv(p, slice, k);
    assert(w =~= nonpreemptive_waits(p));
}

proof fn lemma_fcfs_clock_behind(p: Seq<Process>, j: int)
    requires
        0 <= j <= p.len(),
    ensures
        fcfs_clock(p, j) <= cpu_free_at(p, j),
    decreases j,
{
    if j > 0 {
        lemma_fcfs_clock_behind(p, j - 1);
        assert(exec_times(p).take(j).drop_last() =~= exec_times(p).take(j - 1));
    }
}

/// First-come-first-served's clock never stops to wait for an arrival. It
/// agrees with a processor that does wherever, for each process, the two
/// clocks coincide or the idling processor is free no later than the
/// process arrives.
pub open spec fn clocks_agree(p: Seq<Process>) -> bool {
    forall|j: int|
        0 <= j < p.len() ==> #[trigger] cpu_free_at(p, j) == fcfs_clock(p, j) || cpu_free_at(p, j)
            <= p[j].arrival_time
}

/// With arrivals in order, a time slice no shorter than any execution time,
/// and clocks that agree, round robin reports the waiting times of
/// first-come-first-served, so the two give the same totals and averages.
pub proof fn lemma_round_robin_matches_fcfs(p: Seq<Process>, slice: int, w: Seq<int>)
    requires
        sorted_by_arrival(p),
        forall|i: int| 0 <= i < p.len() ==> p[i].execution_time <= slice,
        slice > 0,
        clocks_agree(p),
        round_robin_outcome(p, slice, w),
    ensures
        w == fcfs_waits(p),
{
    lemma_round_robin_without_preemption(p, slice, w);
    assert forall|j: int| 0 <= j < p.len() implies nonpreemptive_waits(p)[j] == fcfs_waits(p)[j] by {
        lemma_fcfs_clock_behind(p, j);
        assert(cpu_free_at(p, j) == fcfs_clock(p, j) || cpu_free_at(p, j) <= p[j].arrival_time);
    }
    assert(w =~= fcfs_waits(p));
}

} // verus!
