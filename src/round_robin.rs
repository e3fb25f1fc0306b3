use vstd::prelude::*;
use std::collections::VecDeque;
use crate::process::{
    Process, Totals, seq_sum, exec_times, total_exec, as_ints, summarize, lemma_seq_sum_update,
    lemma_seq_sum_bounds,
};

verus! {

/// The state of a round-robin simulation between two steps.
pub struct SimState {
    pub remaining: Seq<int>,
    pub waiting: Seq<int>,
    pub queued: Seq<bool>,
    pub finished: Seq<bool>,
    pub queue: Seq<int>,
    pub clock: int,
    pub completed: int,
}

/// Nothing queued, nothing run, every process with its full execution time
/// left.
pub open spec fn initial_state(p: Seq<Process>) -> SimState {
    SimState {
        remaining: exec_times(p),
        waiting: Seq::new(p.len(), |i: int| 0),
        queued: Seq::new(p.len(), |i: int| false),
        finished: Seq::new(p.len(), |i: int| false),
        queue: Seq::empty(),
        clock: 0,
        completed: 0,
    }
}

/// Process `i` has arrived and is neither waiting in the queue nor done.
pub open spec fn admissible(p: Seq<Process>, s: SimState, i: int) -> bool {
    &&& !s.queued[i]
    &&& !s.finished[i]
    &&& p[i].arrival_time <= s.clock
}

/// The admissible indices below `k`, in index order.
pub open spec fn arrivals(p: Seq<Process>, s: SimState, k: int) -> Seq<int>
    decreases k,
{
    if k <= 0 {
        Seq::empty()
    } else if admissible(p, s, k - 1) {
        arrivals(p, s, k - 1).push(k - 1)
    } else {
        arrivals(p, s, k - 1)
    }
}

/// The admission scan: every admissible process joins the tail of the queue.
pub open spec fn admission(p: Seq<Process>, s: SimState) -> SimState {
    SimState {
        queue: s.queue + arrivals(p, s, p.len() as int),
        queued: Seq::new(p.len(), |i: int| s.queued[i] || admissible(p, s, i)),
        ..s
    }
}

/// One dispatch: the head of the queue runs for at most one slice; with an
/// empty queue the clock ticks once.
pub open spec fn dispatch(p: Seq<Process>, slice: int, s: SimState) -> SimState {
    if s.queue.len() == 0 {
        SimState { clock: s.clock + 1, ..s }
    } else {
        let j = s.queue[0];
        let rest = s.queue.drop_first();
        if s.remaining[j] <= slice {
            let clock = s.clock + s.remaining[j];
            SimState {
                remaining: s.remaining.update(j, 0),
                waiting: s.waiting.update(
                    j,
                    clock - p[j].arrival_time - p[j].execution_time,
                ),
                queued: s.queued.update(j, false),
                finished: s.finished.update(j, true),
                queue: rest,
                clock,
                completed: s.completed + 1,
            }
        } else {
            SimState {
                remaining: s.remaining.update(j, s.remaining[j] - slice),
                queue: rest.push(j),
                clock: s.clock + slice,
                ..s
            }
        }
    }
}

/// One iteration of the simulation: the admission scan, then a dispatch.
pub open spec fn step(p: Seq<Process>, slice: int, s: SimState) -> SimState {
    dispatch(p, slice, admission(p, s))
}

/// Every process has completed.
pub open spec fn is_done(p: Seq<Process>, s: SimState) -> bool {
    s.completed == p.len()
}

/// The state after `k` steps; a finished simulation stays as it is.
pub open spec fn state_after(p: Seq<Process>, slice: int, k: nat) -> SimState
    decreases k,
{
    if k == 0 {
        initial_state(p)
    } else {
        let s = state_after(p, slice, (k - 1) as nat);
        if is_done(p, s) {
            s
        } else {
            step(p, slice, s)
        }
    }
}

/// `w` is the waiting time of each process when the simulation ends.
pub open spec fn round_robin_outcome(p: Seq<Process>, slice: int, w: Seq<int>) -> bool {
    exists|k: nat| is_done(p, #[trigger] state_after(p, slice, k)) && state_after(p, slice, k).waiting == w
}

/// Number of `true` entries.
pub open spec fn count_true(f: Seq<bool>) -> int
    decreases f.len(),
{
    if f.len() == 0 {
        0
    } else {
        count_true(f.drop_last()) + if f.last() { 1int } else { 0int }
    }
}

/// Whether `i` is at some position of the queue.
pub open spec fn in_queue(s: SimState, i: int) -> bool {
    exists|t: int| 0 <= t < s.queue.len() && s.queue[t] == i
}

/// The bookkeeping of a simulation state is consistent.
pub open spec fn wf(p: Seq<Process>, s: SimState) -> bool {
    let n = p.len();
    &&& s.remaining.len() == n
    &&& s.waiting.len() == n
    &&& s.queued.len() == n
    &&& s.finished.len() == n
    &&& forall|t: int| 0 <= t < s.queue.len() ==> 0 <= #[trigger] s.queue[t] < n && s.queued[s.queue[t]]
    &&& s.queue.no_duplicates()
    &&& forall|i: int| 0 <= i < n && #[trigger] s.queued[i] ==> in_queue(s, i)
    &&& forall|i: int| 0 <= i < n && #[trigger] s.queued[i] ==> !s.finished[i]
    &&& s.completed == count_true(s.finished)
    &&& forall|i: int| 0 <= i < n ==> 0 <= #[trigger] s.remaining[i] <= p[i].execution_time
    &&& forall|i: int|
        0 <= i < n && !#[trigger] s.queued[i] && !s.finished[i] ==> s.remaining[i] == p[i].execution_time
    &&& forall|i: int|
        0 <= i < n && #[trigger] s.queued[i] ==> p[i].arrival_time + p[i].execution_time - s.remaining[i] <= s.clock
    &&& forall|i: int| 0 <= i < n ==> 0 <= #[trigger] s.waiting[i] <= s.clock
    &&& seq_sum(s.remaining) <= total_exec(p)
    &&& 0 <= s.clock <= u32::MAX + total_exec(p) - seq_sum(s.remaining)
}

/// Every process that is neither queued nor done has yet to arrive.
pub open spec fn settled(p: Seq<Process>, s: SimState) -> bool {
    forall|i: int|
        0 <= i < p.len() && !#[trigger] s.queued[i] && !s.finished[i] ==> p[i].arrival_time > s.clock
}

/// Work left: remaining CPU time plus processes not yet completed.
pub open spec fn progress(p: Seq<Process>, s: SimState) -> int {
    seq_sum(s.remaining) + (p.len() - s.completed)
}

/// The number of `true` entries is at most the length; if it falls short,
/// some entry is `false`.
pub proof fn lemma_count_true(f: Seq<bool>)
    ensures
        0 <= count_true(f) <= f.len(),
        count_true(f) < f.len() ==> exists|i: int| 0 <= i < f.len() && !f[i],
    decreases f.len(),
{
    if f.len() > 0 {
        lemma_count_true(f.drop_last());
        if count_true(f) < f.len() && f.last() {
            let i = choose|i: int| 0 <= i < f.len() - 1 && !f.drop_last()[i];
            assert(!f[i]);
        }
    }
}

/// Setting a `false` entry adds one to the count.
pub proof fn lemma_count_true_set(f: Seq<bool>, j: int)
    requires
        0 <= j < f.len(),
        !f[j],
    ensures
        count_true(f.update(j, true)) == count_true(f) + 1,
    decreases f.len(),
{
    let g = f.update(j, true);
    if j == f.len() - 1 {
        assert(g.drop_last() =~= f.drop_last());
    } else {
        lemma_count_true_set(f.drop_last(), j);
        assert(g.drop_last() =~= f.drop_last().update(j, true));
    }
}

/// The admission scan lists admissible indices below `k`, each once, in
/// increasing order, and misses none.
pub proof fn lemma_arrivals(p: Seq<Process>, s: SimState, k: int)
    requires
        0 <= k <= p.len(),
        s.queued.len() == p.len(),
        s.finished.len() == p.len(),
    ensures
        forall|t: int|
            0 <= t < arrivals(p, s, k).len() ==> 0 <= #[trigger] arrivals(p, s, k)[t] < k
                && admissible(p, s, arrivals(p, s, k)[t]),
        forall|a: int, b: int|
            0 <= a < b < arrivals(p, s, k).len() ==> arrivals(p, s, k)[a] < arrivals(p, s, k)[b],
        forall|i: int|
            0 <= i < k && admissible(p, s, i) ==> exists|t: int|
                0 <= t < arrivals(p, s, k).len() && arrivals(p, s, k)[t] == i,
    decreases k,
{
    if k > 0 {
        lemma_arrivals(p, s, k - 1);
        let r = arrivals(p, s, k - 1);
        if admissible(p, s, k - 1) {
            let r2 = r.push(k - 1);
            assert(arrivals(p, s, k) == r2);
            assert forall|i: int| 0 <= i < k && admissible(p, s, i) implies exists|t: int|
                0 <= t < r2.len() && r2[t] == i by {
                if i == k - 1 {
                    assert(r2[r.len() as int] == i);
                } else {
                    let t = choose|t: int| 0 <= t < r.len() && r[t] == i;
                    assert(r2[t] == i);
                }
            }
        } else {
            assert(arrivals(p, s, k) == r);
            assert forall|i: int| 0 <= i < k && admissible(p, s, i) implies exists|t: int|
                0 <= t < arrivals(p, s, k).len() && arrivals(p, s, k)[t] == i by {
                assert(i != k - 1);
                let t = choose|t: int| 0 <= t < r.len() && r[t] == i;
                assert(arrivals(p, s, k)[t] == i);
            }
        }
    }
}

/// The initial state is consistent.
pub proof fn lemma_initial_wf(p: Seq<Process>)
    ensures
        wf(p, initial_state(p)),
{
    let s = initial_state(p);
    lemma_zero_count(s.finished);
    lemma_seq_sum_bounds(exec_times(p), u32::MAX as int);
}

/// A sequence with no `true` entry has count zero.
pub proof fn lemma_zero_count(f: Seq<bool>)
    requires
        forall|i: int| 0 <= i < f.len() ==> !f[i],
    ensures
        count_true(f) == 0,
    decreases f.len(),
{
    if f.len() > 0 {
        lemma_zero_count(f.drop_last());
    }
}

/// Admission keeps the state consistent and leaves out only processes that
/// have yet to arrive.
pub proof fn lemma_admission_wf(p: Seq<Process>, s: SimState)
    requires
        wf(p, s),
    ensures
        wf(p, admission(p, s)),
        settled(p, admission(p, s)),
{
    let n = p.len() as int;
    let a = arrivals(p, s, n);
    let s2 = admission(p, s);
    lemma_arrivals(p, s, n);
    assert forall|t: int| 0 <= t < s2.queue.len() implies 0 <= #[trigger] s2.queue[t] < n
        && s2.queued[s2.queue[t]] by {
        if t >= s.queue.len() {
            assert(s2.queue[t] == a[t - s.queue.len()]);
        }
    }
    assert forall|x: int, y: int|
        0 <= x < s2.queue.len() && 0 <= y < s2.queue.len() && x != y implies s2.queue[x]
        != s2.queue[y] by {
        let m = s.queue.len() as int;
        if x < m && y >= m {
            assert(s.queued[s.queue[x]]);
            assert(admissible(p, s, a[y - m]));
        } else if x >= m && y < m {
            assert(s.queued[s.queue[y]]);
            assert(admissible(p, s, a[x - m]));
        } else if x >= m && y >= m {
            if x < y {
                assert(a[x - m] < a[y - m]);
            } else {
                assert(a[y - m] < a[x - m]);
            }
        }
    }
    assert forall|i: int| 0 <= i < n && #[trigger] s2.queued[i] implies in_queue(s2, i) by {
        if s.queued[i] {
            let t = choose|t: int| 0 <= t < s.queue.len() && s.queue[t] == i;
            assert(s2.queue[t] == i);
        } else {
            let t = choose|t: int| 0 <= t < a.len() && a[t] == i;
            assert(s2.queue[s.queue.len() + t] == i);
        }
    }
}

/// A dispatch keeps the state consistent; it reduces the work left, or ticks
/// the clock toward an arrival that is still to come.
pub proof fn lemma_dispatch_wf(p: Seq<Process>, slice: int, s: SimState)
    requires
        wf(p, s),
        settled(p, s),
        !is_done(p, s),
        slice > 0,
    ensures
        wf(p, dispatch(p, slice, s)),
        s.queue.len() > 0 ==> progress(p, dispatch(p, slice, s)) < progress(p, s),
        s.queue.len() == 0 ==> progress(p, dispatch(p, slice, s)) == progress(p, s)
            && s.clock < u32::MAX,
        0 <= progress(p, dispatch(p, slice, s)),
{
    let n = p.len() as int;
    let s2 = dispatch(p, slice, s);
    lemma_count_true(s.finished);
    if s.queue.len() == 0 {
        let i = choose|i: int| 0 <= i < n && !s.finished[i];
        if s.queued[i] {
            let t = choose|t: int| 0 <= t < s.queue.len() && s.queue[t] == i;
        }
        assert(p[i].arrival_time > s.clock);
        lemma_count_true(s2.finished);
        lemma_seq_sum_bounds(s2.remaining, u32::MAX as int);
    } else {
        let j = s.queue[0];
        let rest = s.queue.drop_first();
        assert(s.queued[j]);
        assert forall|t: int| 0 <= t < rest.len() implies rest[t] != j by {
            assert(s.queue[t + 1] == rest[t]);
        }
        if s.remaining[j] <= slice {
            lemma_seq_sum_update(s.remaining, j, 0);
            lemma_count_true_set(s.finished, j);
            assert(s2.queue == rest);
            assert forall|i: int| 0 <= i < n && #[trigger] s2.queued[i] implies in_queue(s2, i) by {
                assert(i != j);
                assert(s.queued[i]);
                assert(in_queue(s, i));
                let t = choose|t: int| 0 <= t < s.queue.len() && s.queue[t] == i;
                assert(t != 0);
                assert(rest[t - 1] == i);
            }
        } else {
            lemma_seq_sum_update(s.remaining, j, s.remaining[j] - slice);
            assert(s2.queue == rest.push(j));
            assert(s2.queued == s.queued);
            assert forall|i: int| 0 <= i < n && #[trigger] s2.queued[i] implies in_queue(s2, i) by {
                if i == j {
                    assert(s2.queue[rest.len() as int] == i);
                } else {
                    let t = choose|t: int| 0 <= t < s.queue.len() && s.queue[t] == i;
                    assert(t != 0);
                    assert(rest[t - 1] == i);
                    assert(s2.queue[t - 1] == i);
                }
            }
            assert forall|x: int, y: int|
                0 <= x < s2.queue.len() && 0 <= y < s2.queue.len() && x != y implies s2.queue[x]
                != s2.queue[y] by {
                if x < rest.len() && y < rest.len() {
                    assert(s.queue[x + 1] != s.queue[y + 1]);
                }
            }
        }
        lemma_count_true(s2.finished);
        lemma_seq_sum_bounds(s2.remaining, u32::MAX as int);
    }
}

/// Once the simulation is done, further steps leave it unchanged.
proof fn lemma_done_stays(p: Seq<Process>, slice: int, k: nat, m: nat)
    requires
        k <= m,
        is_done(p, state_after(p, slice, k)),
    ensures
        state_after(p, slice, m) == state_after(p, slice, k),
    decreases m - k,
{
    if k < m {
        lemma_done_stays(p, slice, k, (m - 1) as nat);
    }
}

/// The round-robin simulation has a single outcome: two runs on the same
/// input report the same waiting times.
pub proof fn lemma_round_robin_deterministic(
    p: Seq<Process>,
    slice: int,
    w1: Seq<int>,
    w2: Seq<int>,
)
    requires
        round_robin_outcome(p, slice, w1),
        round_robin_outcome(p, slice, w2),
    ensures
        w1 == w2,
{
    let k1 = choose|k: nat| is_done(p, #[trigger] state_after(p, slice, k)) && state_after(p, slice, k).waiting == w1;
    let k2 = choose|k: nat| is_done(p, #[trigger] state_after(p, slice, k)) && state_after(p, slice, k).waiting == w2;
    if k1 <= k2 {
        lemma_done_stays(p, slice, k1, k2);
    } else {
        lemma_done_stays(p, slice, k2, k1);
    }
}

/// The executable state of a round-robin simulation.
pub struct Simulation {
    pub remaining: Vec<u32>,
    pub waiting: Vec<u64>,
    pub queued: Vec<bool>,
    pub finished: Vec<bool>,
    pub queue: VecDeque<usize>,
    pub clock: u64,
    pub completed: usize,
}

impl View for Simulation {
    type V = SimState;

    open spec fn view(&self) -> SimState {
        SimState {
            remaining: Seq::new(self.remaining@.len(), |i: int| self.remaining@[i] as int),
            waiting: as_ints(self.waiting@),
            queued: self.queued@,
            finished: self.finished@,
            queue: Seq::new(self.queue@.len(), |t: int| self.queue@[t] as int),
            clock: self.clock as int,
            completed: self.completed as int,
        }
    }
}

impl Simulation {
    /// The state before the first step: nothing queued, nothing run.
    pub fn new(processes: &[Process]) -> (r: Simulation)
        ensures
            r@ == initial_state(processes@),
            wf(processes@, r@),
    {
        proof {
            lemma_initial_wf(processes@);
        }
        let n = processes.len();
        let mut remaining: Vec<u32> = Vec::new();
        let mut waiting: Vec<u64> = Vec::new();
        let mut queued: Vec<bool> = Vec::new();
        let mut finished: Vec<bool> = Vec::new();
        let mut i: usize = 0;
        while i < n
            invariant
                n == processes@.len(),
                0 <= i <= n,
                remaining@.len() == i,
                waiting@.len() == i,
                queued@.len() == i,
                finished@.len() == i,
                forall|t: int| 0 <= t < i ==> remaining@[t] == processes@[t].execution_time,
                forall|t: int| 0 <= t < i ==> waiting@[t] == 0,
                forall|t: int| 0 <= t < i ==> !queued@[t],
                forall|t: int| 0 <= t < i ==> !finished@[t],
            decreases n - i,
        {
            remaining.push(processes[i].execution_time);
            waiting.push(0);
            queued.push(false);
            finished.push(false);
            i = i + 1;
        }
        let r = Simulation {
            remaining,
            waiting,
            queued,
            finished,
            queue: VecDeque::new(),
            clock: 0,
            completed: 0,
        };
        let ghost s0 = initial_state(processes@);
        assert(r@.remaining =~= s0.remaining);
        assert(r@.waiting =~= s0.waiting);
        assert(r@.queued =~= s0.queued);
        assert(r@.finished =~= s0.finished);
        assert(r@.queue =~= s0.queue);
        r
    }

    /// Every admissible process joins the tail of the queue, in index order.
    pub fn admit_arrivals(&mut self, processes: &[Process])
        requires
            wf(processes@, old(self)@),
        ensures
            final(self)@ == admission(processes@, old(self)@),
            wf(processes@, final(self)@),
            settled(processes@, final(self)@),
    {
        proof {
            lemma_admission_wf(processes@, self@);
        }
        let ghost p = processes@;
        let ghost s0 = self@;
        let n = processes.len();
        let mut i: usize = 0;
        while i < n
            invariant
                n == p.len(),
                p == processes@,
                wf(p, s0),
                0 <= i <= n,
                self@.remaining == s0.remaining,
                self@.waiting == s0.waiting,
                self@.finished == s0.finished,
                self@.clock == s0.clock,
                self@.completed == s0.completed,
                self@.queue == s0.queue + arrivals(p, s0, i as int),
                self@.queued == Seq::new(
                    n as nat,
                    |t: int| if t < i { s0.queued[t] || admissible(p, s0, t) } else { s0.queued[t] },
                ),
            decreases n - i,
        {
            let ghost before = self@;
            if !self.queued[i] && !self.finished[i] && processes[i].arrival_time as u64 <= self.clock {
                self.queue.push_back(i);
                self.queued[i] = true;
                assert(self@.queue =~= before.queue.push(i as int));
            } else {
                assert(self@.queue =~= before.queue);
            }
            assert(self@.queued =~= Seq::new(
                n as nat,
                |t: int| if t < i + 1 { s0.queued[t] || admissible(p, s0, t) } else { s0.queued[t] },
            ));
            assert(self@.remaining =~= s0.remaining);
            assert(self@.waiting =~= s0.waiting);
            i = i + 1;
        }
        assert(self@.queued =~= admission(p, s0).queued);
    }

    /// Runs the head of the queue for at most one slice, or lets the clock
    /// tick once when the queue is empty.
    pub fn dispatch_next(&mut self, processes: &[Process], time_slice: u32)
        requires
            wf(processes@, old(self)@),
            settled(processes@, old(self)@),
            !is_done(processes@, old(self)@),
            time_slice > 0,
            processes@.len() <= u32::MAX,
        ensures
            final(self)@ == dispatch(processes@, time_slice as int, old(self)@),
            wf(processes@, final(self)@),
    {
        let ghost p = processes@;
        let ghost s0 = self@;
        proof {
            lemma_dispatch_wf(p, time_slice as int, s0);
            lemma_count_true(s0.finished);
            lemma_seq_sum_bounds(exec_times(p), u32::MAX as int);
            assert(p.len() * u32::MAX <= u32::MAX * u32::MAX) by (nonlinear_arith)
                requires p.len() <= u32::MAX;
        }
        match self.queue.pop_front() {
            Some(j) => {
                assert(s0.queue[0] == j as int);
                proof {
                    lemma_seq_sum_update(s0.remaining, j as int, 0);
                    lemma_seq_sum_bounds(s0.remaining.update(j as int, 0), u32::MAX as int);
                }
                let rem = self.remaining[j];
                if rem <= time_slice {
                    let clock = self.clock + rem as u64;
                    self.clock = clock;
                    let proc = &processes[j];
                    self.waiting[j] = clock - proc.arrival_time as u64 - proc.execution_time as u64;
                    self.remaining[j] = 0;
                    self.queued[j] = false;
                    self.finished[j] = true;
                    self.completed = self.completed + 1;
                } else {
                    self.clock = self.clock + time_slice as u64;
                    self.remaining[j] = rem - time_slice;
                    self.queue.push_back(j);
                }
                let ghost s1 = dispatch(p, time_slice as int, s0);
                assert(self@.remaining =~= s1.remaining);
                assert(self@.waiting =~= s1.waiting);
                assert(self@.queued =~= s1.queued);
                assert(self@.finished =~= s1.finished);
                assert(self@.queue =~= s1.queue);
            },
            None => {
                self.clock = self.clock + 1;
                assert(self@.queue =~= s0.queue);
                assert(self@.remaining =~= s0.remaining);
                assert(self@.waiting =~= s0.waiting);
            },
        }
    }
}

/// Simulates round-robin dispatching with the given time slice and returns
/// the waiting time of each process: its completion time less its arrival
/// and execution times.
pub fn round_robin_waiting_times(processes: &[Process], time_slice: u32) -> (r: Vec<u64>)
    requires
        time_slice > 0,
        processes@.len() <= u32::MAX,
    ensures
        r@.len() == processes@.len(),
        round_robin_outcome(processes@, time_slice as int, as_ints(r@)),
{
    let ghost p = processes@;
    let ghost slice = time_slice as int;
    let n = processes.len();
    let mut sim = Simulation::new(processes);
    let ghost mut k: nat = 0;
    while sim.completed != n
        invariant
            n == p.len(),
            p == processes@,
            slice == time_slice,
            time_slice > 0,
            n <= u32::MAX,
            sim@ == state_after(p, slice, k),
            wf(p, sim@),
        decreases progress(p, sim@), u32::MAX - sim@.clock,
    {
        proof {
            lemma_count_true(sim@.finished);
        }
        sim.admit_arrivals(processes);
        let ghost s1 = sim@;
        proof {
            lemma_dispatch_wf(p, slice, s1);
            lemma_count_true(s1.finished);
        }
        sim.dispatch_next(processes, time_slice);
        proof {
            k = k + 1;
        }
    }
    sim.waiting
}

/// Totals of the round-robin schedule with the given time slice.
pub fn round_robin(processes: &[Process], time_slice: u32) -> (r: Totals)
    requires
        time_slice > 0,
        processes@.len() <= u32::MAX,
    ensures
        exists|w: Seq<int>| round_robin_outcome(processes@, time_slice as int, w) && r.describes(processes@, w),
{
    let w = round_robin_waiting_times(processes, time_slice);
    summarize(processes, w.as_slice())
}

} // verus!
