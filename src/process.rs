use vstd::prelude::*;

verus! {

/// A job to be scheduled: a display label, the CPU time it needs and the
/// time at which it becomes eligible to run.
pub struct Process {
    pub name: String,
    pub execution_time: u32,
    pub arrival_time: u32,
}

impl Process {
    /// A process with the given label, execution time and arrival time.
    pub fn new(name: String, execution_time: u32, arrival_time: u32) -> (r: Process)
        ensures
            r.name@ == name@,
            r.execution_time == execution_time,
            r.arrival_time == arrival_time,
    {
        Process { name, execution_time, arrival_time }
    }
}

/// Sum of a sequence of integers.
pub open spec fn seq_sum(s: Seq<int>) -> int
    decreases s.len(),
{
    if s.len() == 0 {
        0
    } else {
        seq_sum(s.drop_last()) + s.last()
    }
}

/// The execution times of the processes, in input order.
pub open spec fn exec_times(p: Seq<Process>) -> Seq<int> {
    Seq::new(p.len(), |i: int| p[i].execution_time as int)
}

/// Total CPU time that the processes need.
pub open spec fn total_exec(p: Seq<Process>) -> int {
    seq_sum(exec_times(p))
}

/// Turnaround of each process: its waiting time plus its execution time.
pub open spec fn turnarounds(p: Seq<Process>, w: Seq<int>) -> Seq<int> {
    Seq::new(p.len(), |i: int| w[i] + p[i].execution_time)
}

/// A sequence of machine integers read as mathematical integers.
pub open spec fn as_ints(v: Seq<u64>) -> Seq<int> {
    Seq::new(v.len(), |i: int| v[i] as int)
}

/// The processes are in ascending order of arrival time.
pub open spec fn sorted_by_arrival(p: Seq<Process>) -> bool {
    forall|i: int, j: int| 0 <= i <= j < p.len() ==> p[i].arrival_time <= p[j].arrival_time
}

/// Replacing one entry changes the sum by the difference.
pub proof fn lemma_seq_sum_update(s: Seq<int>, j: int, v: int)
    requires
        0 <= j < s.len(),
    ensures
        seq_sum(s.update(j, v)) == seq_sum(s) - s[j] + v,
    decreases s.len(),
{
    let t = s.update(j, v);
    if j == s.len() - 1 {
        assert(t.drop_last() =~= s.drop_last());
    } else {
        lemma_seq_sum_update(s.drop_last(), j, v);
        assert(t.drop_last() =~= s.drop_last().update(j, v));
    }
}

/// A sum of entries in `0..=b` lies in `0..=len * b`.
pub proof fn lemma_seq_sum_bounds(s: Seq<int>, b: int)
    requires
        forall|i: int| 0 <= i < s.len() ==> 0 <= #[trigger] s[i] <= b,
    ensures
        0 <= seq_sum(s) <= s.len() * b,
    decreases s.len(),
{
    if s.len() > 0 {
        lemma_seq_sum_bounds(s.drop_last(), b);
        assert(seq_sum(s) <= (s.len() - 1) * b + b);
        assert((s.len() - 1) * b + b == s.len() * b) by (nonlinear_arith);
    }
}

/// The turnaround times sum to the waiting times plus the execution times.
pub proof fn lemma_turnaround_sum(p: Seq<Process>, w: Seq<int>)
    requires
        w.len() == p.len(),
    ensures
        seq_sum(turnarounds(p, w)) == seq_sum(w) + total_exec(p),
    decreases p.len(),
{
    if p.len() > 0 {
        let q = p.drop_last();
        lemma_turnaround_sum(q, w.drop_last());
        assert(turnarounds(p, w).drop_last() =~= turnarounds(q, w.drop_last()));
        assert(exec_times(p).drop_last() =~= exec_times(q));
    }
}

/// Aggregate figures of one schedule; the averages are the totals divided
/// by `count`.
pub struct Totals {
    pub turnaround: u128,
    pub waiting: u128,
    pub count: usize,
}

impl Totals {
    /// `self` holds the totals of the waiting times `w` of the processes `p`.
    pub open spec fn describes(&self, p: Seq<Process>, w: Seq<int>) -> bool {
        &&& self.count == p.len()
        &&& self.waiting == seq_sum(w)
        &&& self.turnaround == seq_sum(turnarounds(p, w))
    }
}

/// Sums the waiting and turnaround times of the processes, given the waiting
/// time of each.
pub fn summarize(processes: &[Process], waiting: &[u64]) -> (r: Totals)
    requires
        waiting@.len() == processes@.len(),
        processes@.len() <= u32::MAX,
    ensures
        r.describes(processes@, as_ints(waiting@)),
{
    let n = processes.len();
    let ghost p = processes@;
    let ghost w = as_ints(waiting@);
    let mut tw: u128 = 0;
    let mut tt: u128 = 0;
    let mut i: usize = 0;
    while i < n
        invariant
            n == p.len(),
            p == processes@,
            w == as_ints(waiting@),
            w.len() == n,
            n <= u32::MAX,
            0 <= i <= n,
            tw == seq_sum(w.take(i as int)),
            tt == seq_sum(turnarounds(p, w).take(i as int)),
            tw <= i * 0x1_0000_0000_0000_0000,
            tt <= i * 0x2_0000_0000_0000_0000,
        decreases n - i,
    {
        let wi = waiting[i];
        let ti: u128 = wi as u128 + processes[i].execution_time as u128;
        proof {
            assert(w.take(i + 1).drop_last() =~= w.take(i as int));
            assert(turnarounds(p, w).take(i + 1).drop_last() =~= turnarounds(p, w).take(i as int));
        }
        tw = tw + wi as u128;
        tt = tt + ti;
        i = i + 1;
    }
    proof {
        assert(w.take(n as int) =~= w);
        assert(turnarounds(p, w).take(n as int) =~= turnarounds(p, w));
    }
    Totals { turnaround: tt, waiting: tw, count: n }
}

/// Process `x` comes before process `y` in arrival order: it arrives
/// earlier, or at the same time with a lower index.
pub open spec fn arrives_before(p: Seq<Process>, x: int, y: int) -> bool {
    p[x].arrival_time < p[y].arrival_time || (p[x].arrival_time == p[y].arrival_time && x < y)
}

/// `order` lists every index of `p` once, by arrival time and, among equal
/// arrival times, by index.
pub open spec fn is_arrival_order(p: Seq<Process>, order: Seq<usize>) -> bool {
    &&& order.len() == p.len()
    &&& forall|t: int| 0 <= t < order.len() ==> #[trigger] order[t] < p.len()
    &&& forall|s: int, t: int|
        0 <= s < t < order.len() ==> arrives_before(p, order[s] as int, order[t] as int)
}

/// The indices of the processes in the order in which they are to be
/// handed to the schedulers: ascending arrival time, ties kept in input
/// order.
pub fn arrival_order(processes: &[Process]) -> (r: Vec<usize>)
    ensures
        is_arrival_order(processes@, r@),
{
    let ghost p = processes@;
    let n = processes.len();
    let mut order: Vec<usize> = Vec::new();
    let mut i: usize = 0;
    while i < n
        invariant
            n == p.len(),
            p == processes@,
            0 <= i <= n,
            order@.len() == i,
            forall|t: int| 0 <= t < order@.len() ==> #[trigger] order@[t] < i,
            forall|s: int, t: int|
                0 <= s < t < order@.len() ==> arrives_before(p, order@[s] as int, order@[t] as int),
        decreases n - i,
    {
        let arrival = processes[i].arrival_time;
        let mut pos: usize = 0;
        while pos < order.len() && processes[order[pos]].arrival_time <= arrival
            invariant
                n == p.len(),
                p == processes@,
                i < n,
                arrival == p[i as int].arrival_time,
                order@.len() == i,
                forall|t: int| 0 <= t < order@.len() ==> #[trigger] order@[t] < i,
                0 <= pos <= order@.len(),
                forall|t: int| 0 <= t < pos ==> p[order@[t] as int].arrival_time <= arrival,
            decreases order@.len() - pos,
        {
            pos = pos + 1;
        }
        let ghost before = order@;
        proof {
            if pos < before.len() {
                assert forall|t: int| pos <= t < before.len() implies p[before[t] as int].arrival_time
                    > arrival by {
                    if t > pos {
                        assert(arrives_before(p, before[pos as int] as int, before[t] as int));
                    }
                }
            }
        }
        order.insert(pos, i);
        proof {
            let after = order@;
            assert(after == before.insert(pos as int, i));
            assert forall|t: int| 0 <= t < after.len() implies #[trigger] after[t] < i + 1 by {
                if t > pos {
                    assert(after[t] == before[t - 1]);
                }
            }
            assert forall|s: int, t: int| 0 <= s < t < after.len() implies arrives_before(
                p,
                after[s] as int,
                after[t] as int,
            ) by {
                if s < pos && t < pos {
                } else if s < pos && t == pos {
                    assert(before[s] < i);
                } else if s < pos {
                    assert(after[t] == before[t - 1]);
                    assert(arrives_before(p, before[s] as int, before[t - 1] as int));
                } else if s == pos {
                    assert(after[t] == before[t - 1]);
                } else {
                    assert(after[t] == before[t - 1]);
                    assert(after[s] == before[s - 1]);
                    assert(arrives_before(p, before[s - 1] as int, before[t - 1] as int));
                }
            }
        }
        i = i + 1;
    }
    order
}

/// Listing the processes in arrival order sorts them by arrival time.
pub proof fn lemma_arrival_order_sorts(p: Seq<Process>, order: Seq<usize>)
    requires
        is_arrival_order(p, order),
    ensures
        sorted_by_arrival(Seq::new(p.len(), |t: int| p[order[t] as int])),
{
    let q = Seq::new(p.len(), |t: int| p[order[t] as int]);
    assert forall|s: int, t: int| 0 <= s <= t < q.len() implies q[s].arrival_time
        <= q[t].arrival_time by {
        if s < t {
            assert(arrives_before(p, order[s] as int, order[t] as int));
        }
    }
}

} // verus!
