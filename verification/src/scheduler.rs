use vstd::prelude::*;
use crate::order::{
    key_before, is_stable_order, stable_order, lemma_stable_order_distinct, lists_each_once,
    lemma_stable_order_each_once, lemma_distinct_positions_cover,
};
use crate::process::Pcb;
use std::collections::VecDeque;
use crate::sums::{
    total, masked_total, count_set, lemma_masked_bounds, lemma_masked_none, lemma_masked_set,
    lemma_masked_complement, lemma_masked_mono, lemma_masked_all,
    lemma_count_none, lemma_count_all, lemma_count_set,
};

verus! {

/// One slice of the Gantt chart: `pid` holds the CPU from `start` to `end`.
#[derive(Debug, Clone, Copy)]
pub struct GanttSlice {
    pub pid: u32,
    pub start: u32,
    pub end: u32,
}

/// Per-process outcome of a schedule.
#[derive(Debug, Clone, Copy)]
pub struct ProcResult {
    pub pid: u32,
    pub arrival_time: u32,
    pub burst_time: u32,
    pub finish_time: u32,
    pub turnaround_time: u32,
    pub waiting_time: u32,
}

/// A schedule: the Gantt chart and the per-process outcomes.
pub struct ScheduleResult {
    pub gantt: Vec<GanttSlice>,
    pub results: Vec<ProcResult>,
}

// ───────────────────────── model ─────────────────────────

pub open spec fn arrivals(ps: Seq<Pcb>) -> Seq<u32> {
    ps.map_values(|p: Pcb| p.arrival_time)
}

pub open spec fn bursts(ps: Seq<Pcb>) -> Seq<u32> {
    ps.map_values(|p: Pcb| p.burst_time)
}

/// Mask of the processes that arrive at `t` or later.
pub open spec fn arriving_from(ps: Seq<Pcb>, t: int) -> Seq<bool> {
    Seq::new(ps.len(), |j: int| ps[j].arrival_time >= t)
}

/// The clock of a schedule that never idles while work is waiting stays within `u32`:
/// for every arrival time, that time plus all the work (`works`) of the processes arriving
/// then or later fits. (That sum, at its largest, is when such a schedule ends.)
pub open spec fn clock_fits(ps: Seq<Pcb>, works: Seq<u32>) -> bool {
    forall|i: int|
        0 <= i < ps.len() ==> #[trigger] ps[i].arrival_time + masked_total(works, arriving_from(ps, ps[i].arrival_time as int))
            <= u32::MAX
}

proof fn lemma_min_arrival(ps: Seq<Pcb>, n: int) -> (i: int)
    requires
        0 < n <= ps.len(),
    ensures
        0 <= i < n,
        forall|j: int| 0 <= j < n ==> ps[i].arrival_time <= #[trigger] ps[j].arrival_time,
    decreases n,
{
    if n == 1 {
        0
    } else {
        let b = lemma_min_arrival(ps, n - 1);
        if ps[n - 1].arrival_time < ps[b].arrival_time {
            n - 1
        } else {
            b
        }
    }
}

/// All the work fits on the clock from time 0.
proof fn lemma_clock_total(ps: Seq<Pcb>, works: Seq<u32>)
    requires
        works.len() == ps.len(),
        clock_fits(ps, works),
    ensures
        total(works) <= u32::MAX,
{
    if ps.len() > 0 {
        let i = lemma_min_arrival(ps, ps.len() as int);
        let mask = arriving_from(ps, ps[i].arrival_time as int);
        assert forall|j: int| 0 <= j < mask.len() implies #[trigger] mask[j] by {
            assert(ps[i].arrival_time <= ps[j].arrival_time);
        }
        lemma_masked_all(works, mask);
        assert(ps[i].arrival_time + masked_total(works, mask) <= u32::MAX);
    } else {
        assert(works.len() == 0);
    }
}

/// When the clock jumps to the arrival of process `x`, the work still pending, all of it
/// arriving no earlier, fits on the clock.
proof fn lemma_jump_fits(ps: Seq<Pcb>, works: Seq<u32>, pending: Seq<bool>, x: int)
    requires
        works.len() == ps.len(),
        pending.len() == ps.len(),
        clock_fits(ps, works),
        0 <= x < ps.len(),
        forall|j: int| 0 <= j < ps.len() && #[trigger] pending[j] ==> ps[x].arrival_time <= ps[j].arrival_time,
    ensures
        ps[x].arrival_time + masked_total(works, pending) <= u32::MAX,
{
    let mask = arriving_from(ps, ps[x].arrival_time as int);
    lemma_masked_mono(works, pending, mask);
    assert(ps[x].arrival_time + masked_total(works, mask) <= u32::MAX);
}

/// The pending (not done) work is the whole work less the done work.
proof fn lemma_pending_work(works: Seq<u32>, done: Seq<bool>)
    requires
        done.len() == works.len(),
    ensures
        masked_total(works, Seq::new(done.len(), |j: int| !done[j])) == total(works) - masked_total(works, done),
{
    lemma_masked_complement(works, done);
}

/// The outcome of process `p` when it finishes at `finish`.
pub open spec fn result_for(p: Pcb, finish: u32) -> ProcResult {
    ProcResult {
        pid: p.pid,
        arrival_time: p.arrival_time,
        burst_time: p.burst_time,
        finish_time: finish,
        turnaround_time: (finish - p.arrival_time) as u32,
        waiting_time: (finish - p.arrival_time - p.burst_time) as u32,
    }
}

/// The end of the slice before slice `k` (the clock starts at 0).
pub open spec fn prev_end(gantt: Seq<GanttSlice>, k: int) -> int {
    if k == 0 {
        0
    } else {
        gantt[k - 1].end as int
    }
}

pub open spec fn max(a: int, b: int) -> int {
    if a < b {
        b
    } else {
        a
    }
}

/// First come, first served: processes run to completion in stable order of arrival,
/// each starting when the CPU is free and it has arrived.
pub open spec fn is_fcfs(ps: Seq<Pcb>, ord: Seq<usize>, gantt: Seq<GanttSlice>, results: Seq<ProcResult>) -> bool {
    &&& is_stable_order(arrivals(ps), ord)
    &&& gantt.len() == ps.len()
    &&& results.len() == ps.len()
    &&& forall|k: int|
        0 <= k < gantt.len() ==> {
            let p = ps[ord[k] as int];
            &&& (#[trigger] gantt[k]).pid == p.pid
            &&& gantt[k].start == max(prev_end(gantt, k), p.arrival_time as int)
            &&& gantt[k].end == gantt[k].start + p.burst_time
            &&& results[k] == result_for(p, gantt[k].end)
        }
}

/// Process `j` has not been scheduled in the first `k` picks.
pub open spec fn unscheduled(ord: Seq<usize>, k: int, j: int) -> bool {
    forall|m: int| 0 <= m < k ==> ord[m] != j
}

/// Pick `k` of a non-preemptive schedule by `keys`: when the CPU frees up, the clock jumps
/// to the earliest pending arrival if nobody is waiting, and among the waiting processes the
/// one with the smallest key (then the smallest position) runs to completion.
pub open spec fn picked_at(
    ps: Seq<Pcb>,
    keys: Seq<u32>,
    ord: Seq<usize>,
    gantt: Seq<GanttSlice>,
    k: int,
) -> bool {
    let i = ord[k] as int;
    let s = gantt[k].start as int;
    let prev = prev_end(gantt, k);
    &&& i < ps.len()
    &&& unscheduled(ord, k, i)
    &&& ps[i].arrival_time <= s
    &&& prev <= s
    &&& (s == prev || forall|j: int|
        0 <= j < ps.len() && unscheduled(ord, k, j) ==> s <= #[trigger] ps[j].arrival_time)
    &&& forall|j: int|
        0 <= j < ps.len() && unscheduled(ord, k, j) && #[trigger] ps[j].arrival_time <= s && j != i
            ==> key_before(keys, i, j)
    &&& gantt[k].pid == ps[i].pid
    &&& gantt[k].end == s + ps[i].burst_time
}

/// A complete non-preemptive schedule of `ps` chosen by `keys`, picks listed in `ord`.
pub open spec fn is_nonpreemptive(
    ps: Seq<Pcb>,
    keys: Seq<u32>,
    ord: Seq<usize>,
    gantt: Seq<GanttSlice>,
    results: Seq<ProcResult>,
) -> bool {
    &&& ord.len() == ps.len()
    &&& gantt.len() == ps.len()
    &&& results.len() == ps.len()
    &&& forall|k: int| 0 <= k < ps.len() ==> #[trigger] picked_at(ps, keys, ord, gantt, k)
    &&& forall|k: int| 0 <= k < ps.len() ==> #[trigger] results[k] == result_for(ps[ord[k] as int], gantt[k].end)
}

pub open spec fn priorities(ps: Seq<Pcb>) -> Seq<u32> {
    ps.map_values(|p: Pcb| p.priority)
}

// ───────────────────────── helpers ─────────────────────────

proof fn lemma_picked_extend(
    ps: Seq<Pcb>,
    keys: Seq<u32>,
    ord: Seq<usize>,
    gantt: Seq<GanttSlice>,
    x: usize,
    g: GanttSlice,
    m: int,
)
    requires
        0 <= m < ord.len(),
        m < gantt.len(),
        picked_at(ps, keys, ord, gantt, m),
    ensures
        picked_at(ps, keys, ord.push(x), gantt.push(g), m),
{
    let ord2 = ord.push(x);
    let gantt2 = gantt.push(g);
    assert(ord2[m] == ord[m]);
    assert(gantt2[m] == gantt[m]);
    assert(prev_end(gantt2, m) == prev_end(gantt, m));
    assert forall|j: int| unscheduled(ord2, m, j) == unscheduled(ord, m, j) by {
        if !unscheduled(ord, m, j) {
            let mm = choose|mm: int| 0 <= mm < m && ord[mm] == j;
            assert(ord2[mm] == j);
        }
        if !unscheduled(ord2, m, j) {
            let mm = choose|mm: int| 0 <= mm < m && ord2[mm] == j;
            assert(ord[mm] == j);
        }
    }
}

/// Among the processes not yet done that have arrived by `time`, the one with the smallest
/// key (first on ties); `None` when nobody has arrived yet.
fn pick_ready(processes: &Vec<Pcb>, keys: &Vec<u32>, done: &Vec<bool>, time: u32) -> (r: Option<usize>)
    requires
        keys.len() == processes.len(),
        done.len() == processes.len(),
    ensures
        r matches Some(i) ==> {
            &&& i < processes.len()
            &&& !done@[i as int]
            &&& processes@[i as int].arrival_time <= time
            &&& forall|j: int|
                0 <= j < processes.len() && !done@[j] && #[trigger] processes@[j].arrival_time <= time && j != i
                    ==> key_before(keys@, i as int, j)
        },
        r is None ==> forall|j: int| 0 <= j < processes.len() && !done@[j] ==> #[trigger] processes@[j].arrival_time > time,
{
    let mut best: Option<usize> = None;
    let mut i: usize = 0;
    while i < processes.len()
        invariant
            keys.len() == processes.len(),
            done.len() == processes.len(),
            i <= processes.len(),
            best matches Some(b) ==> {
                &&& b < i
                &&& !done@[b as int]
                &&& processes@[b as int].arrival_time <= time
                &&& forall|j: int|
                    0 <= j < i && !done@[j] && #[trigger] processes@[j].arrival_time <= time && j != b
                        ==> key_before(keys@, b as int, j)
            },
            best is None ==> forall|j: int| 0 <= j < i && !done@[j] ==> #[trigger] processes@[j].arrival_time > time,
        decreases processes.len() - i,
    {
        if !done[i] && processes[i].arrival_time <= time {
            match best {
                None => {
                    best = Some(i);
                },
                Some(b) => {
                    if keys[i] < keys[b] {
                        best = Some(i);
                    }
                },
            }
        }
        i = i + 1;
    }
    best
}

/// The earliest arrival among the processes not yet done.
fn earliest_pending_arrival(processes: &Vec<Pcb>, done: &Vec<bool>) -> (t: u32)
    requires
        done.len() == processes.len(),
        exists|j: int| 0 <= j < processes.len() && !done@[j],
    ensures
        exists|j: int| 0 <= j < processes.len() && !done@[j] && processes@[j].arrival_time == t,
        forall|j: int| 0 <= j < processes.len() && !done@[j] ==> t <= #[trigger] processes@[j].arrival_time,
{
    let mut best: Option<u32> = None;
    let mut i: usize = 0;
    while i < processes.len()
        invariant
            done.len() == processes.len(),
            i <= processes.len(),
            exists|j: int| 0 <= j < processes.len() && !done@[j],
            best matches Some(t) ==> exists|j: int| 0 <= j < i && !done@[j] && processes@[j].arrival_time == t,
            best matches Some(t) ==> forall|j: int| 0 <= j < i && !done@[j] ==> t <= #[trigger] processes@[j].arrival_time,
            best is None ==> forall|j: int| 0 <= j < i ==> done@[j],
        decreases processes.len() - i,
    {
        if !done[i] {
            match best {
                None => {
                    best = Some(processes[i].arrival_time);
                },
                Some(t) => {
                    if processes[i].arrival_time < t {
                        best = Some(processes[i].arrival_time);
                    }
                },
            }
        }
        i = i + 1;
    }
    match best {
        Some(t) => t,
        None => {
            proof {
                let j = choose|j: int| 0 <= j < processes.len() && !done@[j];
                assert(done@[j]);
            }
            0
        },
    }
}

fn arrival_keys(processes: &Vec<Pcb>) -> (keys: Vec<u32>)
    ensures
        keys@ == arrivals(processes@),
{
    let mut keys: Vec<u32> = Vec::new();
    let mut i: usize = 0;
    while i < processes.len()
        invariant
            i <= processes.len(),
            keys@ == arrivals(processes@).subrange(0, i as int),
        decreases processes.len() - i,
    {
        keys.push(processes[i].arrival_time);
        i = i + 1;
        assert(keys@ =~= arrivals(processes@).subrange(0, i as int));
    }
    assert(keys@ =~= arrivals(processes@));
    keys
}

// ───────────────────────── FCFS ─────────────────────────

/// First come, first served.
#[verifier::rlimit(50)]
pub fn fcfs(processes: &Vec<Pcb>) -> (r: ScheduleResult)
    requires
        clock_fits(processes@, bursts(processes@)),
    ensures
        exists|ord: Seq<usize>| is_fcfs(processes@, ord, r.gantt@, r.results@),
{
    let ghost ps = processes@;
    let n = processes.len();
    let keys = arrival_keys(processes);
    let ord = stable_order(&keys);
    let mut time: u32 = 0;
    let mut gantt: Vec<GanttSlice> = Vec::new();
    let mut results: Vec<ProcResult> = Vec::new();
    let ghost mut done: Seq<bool> = Seq::new(n as nat, |j: int| false);
    proof {
        lemma_masked_none(bursts(ps), done);
        lemma_clock_total(ps, bursts(ps));
        lemma_stable_order_each_once(arrivals(ps), ord@);
    }
    let mut k: usize = 0;
    while k < n
        invariant
            ps == processes@,
            n == ps.len(),
            is_stable_order(arrivals(ps), ord@),
            lists_each_once(n as int, ord@),
            clock_fits(ps, bursts(ps)),
            k <= n,
            gantt.len() == k,
            results.len() == k,
            done.len() == n,
            forall|j: int| 0 <= j < n ==> (#[trigger] done[j] <==> exists|m: int| 0 <= m < k && ord@[m] == j),
            time as int == prev_end(gantt@, k as int),
            time + total(bursts(ps)) - masked_total(bursts(ps), done) <= u32::MAX,
            forall|m: int|
                0 <= m < k ==> {
                    let p = ps[ord@[m] as int];
                    &&& (#[trigger] gantt@[m]).pid == p.pid
                    &&& gantt@[m].start == max(prev_end(gantt@, m), p.arrival_time as int)
                    &&& gantt@[m].end == gantt@[m].start + p.burst_time
                    &&& results@[m] == result_for(p, gantt@[m].end)
                },
        decreases n - k,
    {
        let idx = ord[k];
        let p = processes[idx];
        proof {
            if done[idx as int] {
                let m = choose|m: int| 0 <= m < k && ord@[m] == idx;
                lemma_stable_order_distinct(arrivals(ps), ord@, m, k as int);
            }
            lemma_masked_set(bursts(ps), done, idx as int);
            lemma_masked_bounds(bursts(ps), done.update(idx as int, true));
            lemma_masked_bounds(bursts(ps), done);
            assert(bursts(ps)[idx as int] == p.burst_time);
        }
        if time < p.arrival_time {
            proof {
                let pending = Seq::new(done.len(), |j: int| !done[j]);
                assert forall|j: int| 0 <= j < n && #[trigger] pending[j] implies ps[idx as int].arrival_time
                    <= ps[j].arrival_time by {
                    assert(ord@.contains(j as usize));
                    let m = choose|m: int| 0 <= m < ord@.len() && ord@[m] == j as usize;
                    if m < k {
                        assert(done[j]);
                    } else if m > k {
                        assert(key_before(arrivals(ps), ord@[k as int] as int, ord@[m] as int));
                    }
                }
                lemma_jump_fits(ps, bursts(ps), pending, idx as int);
                lemma_pending_work(bursts(ps), done);
            }
            time = p.arrival_time;
        }
        let start = time;
        time = time + p.burst_time;
        let ghost old_gantt = gantt@;
        gantt.push(GanttSlice { pid: p.pid, start, end: time });
        results.push(
            ProcResult {
                pid: p.pid,
                arrival_time: p.arrival_time,
                burst_time: p.burst_time,
                finish_time: time,
                turnaround_time: time - p.arrival_time,
                waiting_time: time - p.arrival_time - p.burst_time,
            },
        );
        proof {
            done = done.update(idx as int, true);
            assert forall|j: int| 0 <= j < n implies (#[trigger] done[j] <==> exists|m: int|
                0 <= m < k + 1 && ord@[m] == j) by {
                if j == idx {
                    assert(ord@[k as int] == j);
                } else if done[j] {
                    let m = choose|m: int| 0 <= m < k && ord@[m] == j;
                    assert(0 <= m < k + 1 && ord@[m] == j);
                }
            }
            assert forall|m: int| 0 <= m < k + 1 implies {
                let p = ps[ord@[m] as int];
                &&& (#[trigger] gantt@[m]).pid == p.pid
                &&& gantt@[m].start == max(prev_end(gantt@, m), p.arrival_time as int)
                &&& gantt@[m].end == gantt@[m].start + p.burst_time
                &&& results@[m] == result_for(p, gantt@[m].end)
            } by {
                if m < k {
                    assert(gantt@[m] == old_gantt[m]);
                    assert(prev_end(gantt@, m) == prev_end(old_gantt, m));
                }
            }
        }
        k = k + 1;
    }
    let r = ScheduleResult { gantt, results };
    assert(is_fcfs(ps, ord@, r.gantt@, r.results@));
    r
}


// ───────────────────────── non-preemptive by key ─────────────────────────

fn key_vec(processes: &Vec<Pcb>, by_priority: bool) -> (keys: Vec<u32>)
    ensures
        keys@ == if by_priority { priorities(processes@) } else { bursts(processes@) },
{
    let ghost want = if by_priority { priorities(processes@) } else { bursts(processes@) };
    let mut keys: Vec<u32> = Vec::new();
    let mut i: usize = 0;
    while i < processes.len()
        invariant
            i <= processes.len(),
            want == if by_priority { priorities(processes@) } else { bursts(processes@) },
            keys@ == want.subrange(0, i as int),
        decreases processes.len() - i,
    {
        if by_priority {
            keys.push(processes[i].priority);
        } else {
            keys.push(processes[i].burst_time);
        }
        i = i + 1;
        assert(keys@ =~= want.subrange(0, i as int));
    }
    assert(keys@ =~= want);
    keys
}

#[verifier::rlimit(50)]
fn run_nonpreemptive(processes: &Vec<Pcb>, keys: &Vec<u32>) -> (r: ScheduleResult)
    requires
        keys.len() == processes.len(),
        clock_fits(processes@, bursts(processes@)),
    ensures
        exists|ord: Seq<usize>| is_nonpreemptive(processes@, keys@, ord, r.gantt@, r.results@),
{
    let ghost ps = processes@;
    let n = processes.len();
    let mut done: Vec<bool> = Vec::new();
    while done.len() < n
        invariant
            done.len() <= n,
            forall|j: int| 0 <= j < done.len() ==> !#[trigger] done@[j],
        decreases n - done.len(),
    {
        done.push(false);
    }
    proof {
        lemma_masked_none(bursts(ps), done@);
        lemma_count_none(done@);
        lemma_clock_total(ps, bursts(ps));
    }
    let mut time: u32 = 0;
    let mut gantt: Vec<GanttSlice> = Vec::new();
    let mut results: Vec<ProcResult> = Vec::new();
    let ghost mut ord: Seq<usize> = Seq::empty();
    let mut k: usize = 0;
    while k < n
        invariant
            ps == processes@,
            n == ps.len(),
            keys.len() == n,
            clock_fits(ps, bursts(ps)),
            k <= n,
            ord.len() == k,
            gantt.len() == k,
            results.len() == k,
            done.len() == n,
            forall|j: int| 0 <= j < n ==> (!#[trigger] done@[j] <==> unscheduled(ord, k as int, j)),
            count_set(done@) == k,
            time as int == prev_end(gantt@, k as int),
            time + total(bursts(ps)) - masked_total(bursts(ps), done@) <= u32::MAX,
            forall|m: int| 0 <= m < k ==> #[trigger] picked_at(ps, keys@, ord, gantt@, m),
            forall|m: int| 0 <= m < k ==> #[trigger] results@[m] == result_for(ps[ord[m] as int], gantt@[m].end),
        decreases n - k,
    {
        let prev = time;
        proof {
            if forall|j: int| 0 <= j < n ==> done@[j] {
                lemma_count_all(done@);
            }
        }
        let mut pick = pick_ready(processes, keys, &done, time);
        if pick.is_none() {
            time = earliest_pending_arrival(processes, &done);
            proof {
                let j = choose|j: int| 0 <= j < n && !done@[j] && ps[j].arrival_time == time;
                let pending = Seq::new(done@.len(), |x: int| !done@[x]);
                assert forall|x: int| 0 <= x < n && #[trigger] pending[x] implies ps[j].arrival_time <= ps[x].arrival_time by {
                    assert(!done@[x]);
                }
                lemma_jump_fits(ps, bursts(ps), pending, j);
                lemma_pending_work(bursts(ps), done@);
            }
            pick = pick_ready(processes, keys, &done, time);
            proof {
                if pick is None {
                    let j = choose|j: int| 0 <= j < n && !done@[j] && ps[j].arrival_time == time;
                    assert(ps[j].arrival_time > time);
                }
            }
        }
        let i = pick.unwrap();
        let p = processes[i];
        let start = time;
        proof {
            lemma_masked_bounds(bursts(ps), done@);
            lemma_masked_set(bursts(ps), done@, i as int);
            lemma_masked_bounds(bursts(ps), done@.update(i as int, true));
            lemma_count_set(done@, i as int);
            assert(bursts(ps)[i as int] == p.burst_time);
        }
        time = time + p.burst_time;
        let ghost old_ord = ord;
        let ghost old_gantt = gantt@;
        let ghost old_done = done@;
        gantt.push(GanttSlice { pid: p.pid, start, end: time });
        results.push(
            ProcResult {
                pid: p.pid,
                arrival_time: p.arrival_time,
                burst_time: p.burst_time,
                finish_time: time,
                turnaround_time: time - p.arrival_time,
                waiting_time: time - p.arrival_time - p.burst_time,
            },
        );
        done.set(i, true);
        proof {
            ord = ord.push(i);
            assert(prev_end(gantt@, k as int) == prev as int);
            assert forall|j: int| 0 <= j < n implies unscheduled(ord, k as int, j) == unscheduled(old_ord, k as int, j) by {
                if !unscheduled(ord, k as int, j) {
                    let mm = choose|mm: int| 0 <= mm < k && ord[mm] == j;
                    assert(old_ord[mm] == j);
                }
                if !unscheduled(old_ord, k as int, j) {
                    let mm = choose|mm: int| 0 <= mm < k && old_ord[mm] == j;
                    assert(ord[mm] == j);
                }
            }
            assert(picked_at(ps, keys@, ord, gantt@, k as int));
            assert forall|m: int| 0 <= m < k + 1 implies #[trigger] picked_at(ps, keys@, ord, gantt@, m) by {
                if m < k {
                    lemma_picked_extend(ps, keys@, old_ord, old_gantt, i, gantt@[k as int], m);
                }
            }
            assert forall|m: int| 0 <= m < k + 1 implies #[trigger] results@[m] == result_for(
                ps[ord[m] as int],
                gantt@[m].end,
            ) by {
                if m < k {
                    assert(gantt@[m] == old_gantt[m]);
                    assert(ord[m] == old_ord[m]);
                }
            }
            assert forall|j: int| 0 <= j < n implies (!#[trigger] done@[j] <==> unscheduled(ord, k + 1, j)) by {
                if j != i {
                    assert(done@[j] == old_done[j]);
                    if !unscheduled(ord, k + 1, j) {
                        let mm = choose|mm: int| 0 <= mm < k + 1 && ord[mm] == j;
                        assert(mm < k);
                        assert(!unscheduled(old_ord, k as int, j));
                    }
                    if !unscheduled(old_ord, k as int, j) {
                        let mm = choose|mm: int| 0 <= mm < k && old_ord[mm] == j;
                        assert(ord[mm] == j);
                    }
                } else {
                    assert(ord[k as int] == j);
                }
            }
        }
        k = k + 1;
    }
    let r = ScheduleResult { gantt, results };
    assert(is_nonpreemptive(ps, keys@, ord, r.gantt@, r.results@));
    r
}

/// Shortest job first, non-preemptive: whenever the CPU frees up, the waiting process with
/// the shortest burst runs to completion (ties go to the earlier position).
pub fn sjf(processes: &Vec<Pcb>) -> (r: ScheduleResult)
    requires
        clock_fits(processes@, bursts(processes@)),
    ensures
        exists|ord: Seq<usize>| is_nonpreemptive(processes@, bursts(processes@), ord, r.gantt@, r.results@),
{
    let keys = key_vec(processes, false);
    run_nonpreemptive(processes, &keys)
}

/// Priority scheduling, non-preemptive: whenever the CPU frees up, the waiting process with
/// the lowest priority value runs to completion (ties go to the earlier position).
pub fn priority_scheduling(processes: &Vec<Pcb>) -> (r: ScheduleResult)
    requires
        clock_fits(processes@, bursts(processes@)),
    ensures
        exists|ord: Seq<usize>| is_nonpreemptive(processes@, priorities(processes@), ord, r.gantt@, r.results@),
{
    let keys = key_vec(processes, true);
    run_nonpreemptive(processes, &keys)
}



// ───────────────────────── totals ─────────────────────────

/// Sum of the waiting times.
pub open spec fn waiting_sum(rs: Seq<ProcResult>) -> int
    decreases rs.len(),
{
    if rs.len() == 0 {
        0
    } else {
        waiting_sum(rs.drop_last()) + rs.last().waiting_time
    }
}

/// Sum of the turnaround times.
pub open spec fn turnaround_sum(rs: Seq<ProcResult>) -> int
    decreases rs.len(),
{
    if rs.len() == 0 {
        0
    } else {
        turnaround_sum(rs.drop_last()) + rs.last().turnaround_time
    }
}

proof fn lemma_sums_bound(rs: Seq<ProcResult>)
    ensures
        0 <= waiting_sum(rs) <= rs.len() * (u32::MAX as int),
        0 <= turnaround_sum(rs) <= rs.len() * (u32::MAX as int),
    decreases rs.len(),
{
    if rs.len() > 0 {
        lemma_sums_bound(rs.drop_last());
        assert((rs.len() - 1) * (u32::MAX as int) + u32::MAX == rs.len() * (u32::MAX as int)) by (nonlinear_arith);
    }
}

impl ScheduleResult {
    /// Sum of the waiting times of all outcomes (the average divides it by their number).
    pub fn total_waiting(&self) -> (t: u128)
        ensures
            t == waiting_sum(self.results@),
    {
        let mut t: u128 = 0;
        let mut i: usize = 0;
        while i < self.results.len()
            invariant
                i <= self.results@.len(),
                t == waiting_sum(self.results@.take(i as int)),
            decreases self.results@.len() - i,
        {
            proof {
                assert(self.results@.take(i + 1).drop_last() =~= self.results@.take(i as int));
                lemma_sums_bound(self.results@.take(i as int));
                assert(i * (u32::MAX as int) <= usize::MAX * (u32::MAX as int)) by (nonlinear_arith)
                    requires
                        i <= usize::MAX,
                ;
            }
            t = t + self.results[i].waiting_time as u128;
            i = i + 1;
        }
        assert(self.results@.take(i as int) =~= self.results@);
        t
    }

    /// Sum of the turnaround times of all outcomes (the average divides it by their number).
    pub fn total_turnaround(&self) -> (t: u128)
        ensures
            t == turnaround_sum(self.results@),
    {
        let mut t: u128 = 0;
        let mut i: usize = 0;
        while i < self.results.len()
            invariant
                i <= self.results@.len(),
                t == turnaround_sum(self.results@.take(i as int)),
            decreases self.results@.len() - i,
        {
            proof {
                assert(self.results@.take(i + 1).drop_last() =~= self.results@.take(i as int));
                lemma_sums_bound(self.results@.take(i as int));
                assert(i * (u32::MAX as int) <= usize::MAX * (u32::MAX as int)) by (nonlinear_arith)
                    requires
                        i <= usize::MAX,
                ;
            }
            t = t + self.results[i].turnaround_time as u128;
            i = i + 1;
        }
        assert(self.results@.take(i as int) =~= self.results@);
        t
    }
}

// ───────────────────────── laws ─────────────────────────

/// Slices follow one another in time without overlapping.
pub open spec fn slices_in_order(gantt: Seq<GanttSlice>) -> bool {
    forall|k: int| 0 <= k < gantt.len() ==> prev_end(gantt, k) <= (#[trigger] gantt[k]).start <= gantt[k].end
}

/// An outcome's times agree: turnaround is finish minus arrival, and waiting plus burst.
pub open spec fn outcome_consistent(r: ProcResult) -> bool {
    &&& r.finish_time == r.arrival_time + r.turnaround_time
    &&& r.turnaround_time == r.waiting_time + r.burst_time
}

/// Slice `k` runs the whole burst of the process at position `ord[k]`, not before it
/// arrives, and outcome `k` is that process's.
pub open spec fn runs_whole_burst(ps: Seq<Pcb>, ord: Seq<usize>, gantt: Seq<GanttSlice>, results: Seq<ProcResult>, k: int) -> bool {
    let p = ps[ord[k] as int];
    &&& gantt[k].pid == p.pid
    &&& p.arrival_time <= gantt[k].start
    &&& gantt[k].end == gantt[k].start + p.burst_time
    &&& results[k].pid == p.pid
    &&& results[k].arrival_time == p.arrival_time
    &&& results[k].burst_time == p.burst_time
    &&& results[k].finish_time == gantt[k].end
    &&& outcome_consistent(results[k])
}

/// A run-to-completion schedule: every process gets exactly one slice, in time order,
/// holding its whole burst after its arrival, with consistent outcomes.
pub open spec fn runs_to_completion(ps: Seq<Pcb>, ord: Seq<usize>, gantt: Seq<GanttSlice>, results: Seq<ProcResult>) -> bool {
    &&& lists_each_once(ps.len() as int, ord)
    &&& gantt.len() == ps.len()
    &&& results.len() == ps.len()
    &&& slices_in_order(gantt)
    &&& forall|k: int| 0 <= k < ps.len() ==> #[trigger] runs_whole_burst(ps, ord, gantt, results, k)
}

/// First come, first served runs every process exactly once, to completion, in time order,
/// never before it arrives; each outcome has turnaround = finish - arrival = waiting + burst.
pub proof fn law_fcfs_runs_to_completion(ps: Seq<Pcb>, ord: Seq<usize>, gantt: Seq<GanttSlice>, results: Seq<ProcResult>)
    requires
        is_fcfs(ps, ord, gantt, results),
    ensures
        runs_to_completion(ps, ord, gantt, results),
{
    lemma_stable_order_each_once(arrivals(ps), ord);
    assert forall|k: int| 0 <= k < ps.len() implies #[trigger] runs_whole_burst(ps, ord, gantt, results, k) by {
        assert(gantt[k].pid == ps[ord[k] as int].pid);
    }
    assert forall|k: int| 0 <= k < gantt.len() implies prev_end(gantt, k) <= (#[trigger] gantt[k]).start <= gantt[k].end by {
        assert(gantt[k].pid == ps[ord[k] as int].pid);
    }
}

/// A non-preemptive schedule (shortest job first, priority) runs every process exactly
/// once, to completion, in time order, never before it arrives; each outcome has
/// turnaround = finish - arrival = waiting + burst.
pub proof fn law_nonpreemptive_runs_to_completion(
    ps: Seq<Pcb>,
    keys: Seq<u32>,
    ord: Seq<usize>,
    gantt: Seq<GanttSlice>,
    results: Seq<ProcResult>,
)
    requires
        is_nonpreemptive(ps, keys, ord, gantt, results),
    ensures
        runs_to_completion(ps, ord, gantt, results),
{
    let n = ps.len() as int;
    assert forall|k: int| 0 <= k < n implies #[trigger] ord[k] < n by {
        assert(picked_at(ps, keys, ord, gantt, k));
    }
    assert forall|a: int, b: int| 0 <= a < b < n implies #[trigger] ord[a] != #[trigger] ord[b] by {
        assert(picked_at(ps, keys, ord, gantt, b));
        assert(unscheduled(ord, b, ord[b] as int));
    }
    lemma_distinct_positions_cover(n, ord);
    assert forall|k: int| 0 <= k < n implies #[trigger] runs_whole_burst(ps, ord, gantt, results, k) by {
        assert(picked_at(ps, keys, ord, gantt, k));
        assert(results[k] == result_for(ps[ord[k] as int], gantt[k].end));
    }
    assert forall|k: int| 0 <= k < gantt.len() implies prev_end(gantt, k) <= (#[trigger] gantt[k]).start <= gantt[k].end by {
        assert(picked_at(ps, keys, ord, gantt, k));
    }
}

// ───────────────────────── Round Robin ─────────────────────────

pub open spec fn remainings(ps: Seq<Pcb>) -> Seq<u32> {
    ps.map_values(|p: Pcb| p.remaining_time)
}

/// The state of the round-robin simulation between two slices: the ready queue of
/// (position, time still to run), the clock, how many processes (in stable arrival order)
/// have been admitted, and the (position, finish time) of each process done so far.
pub ghost struct RrState {
    pub queue: Seq<(usize, u32)>,
    pub time: u32,
    pub arrived: nat,
    pub finished: Seq<(usize, u32)>,
}

/// Appends to the queue, in arrival order, every not yet admitted process that has arrived by `time`.
pub open spec fn rr_admit(
    ps: Seq<Pcb>,
    ord: Seq<usize>,
    queue: Seq<(usize, u32)>,
    arrived: nat,
    time: u32,
) -> (Seq<(usize, u32)>, nat)
    decreases ord.len() - arrived,
{
    if arrived < ord.len() && ps[ord[arrived as int] as int].arrival_time <= time {
        rr_admit(
            ps,
            ord,
            queue.push((ord[arrived as int], ps[ord[arrived as int] as int].remaining_time)),
            arrived + 1,
            time,
        )
    } else {
        (queue, arrived)
    }
}

/// The state before the first slice: whoever has arrived at time 0 is queued; when
/// nobody has, the clock jumps to the first arrival and those arriving then are queued.
pub open spec fn rr_init(ps: Seq<Pcb>, ord: Seq<usize>) -> RrState {
    let (q, a) = rr_admit(ps, ord, Seq::empty(), 0, 0);
    if q.len() == 0 && a < ord.len() {
        let t = ps[ord[a as int] as int].arrival_time;
        let (q2, a2) = rr_admit(ps, ord, q, a, t);
        RrState { queue: q2, time: t, arrived: a2, finished: Seq::empty() }
    } else {
        RrState { queue: q, time: 0, arrived: a, finished: Seq::empty() }
    }
}

pub open spec fn min_u32(a: u32, b: u32) -> u32 {
    if a < b {
        a
    } else {
        b
    }
}

/// The slice that the head of the queue runs: at most one quantum.
pub open spec fn rr_slice(ps: Seq<Pcb>, quantum: u32, st: RrState) -> GanttSlice {
    let (idx, rem) = st.queue[0];
    GanttSlice {
        pid: ps[idx as int].pid,
        start: st.time,
        end: (st.time + min_u32(rem, quantum)) as u32,
    }
}

/// One slice of round robin: the head runs for at most a quantum; arrivals during the slice
/// join the queue before the head, which goes to the back unless it has finished; when the
/// queue runs dry while processes are still to come, the clock jumps to the next arrival.
pub open spec fn rr_step(ps: Seq<Pcb>, ord: Seq<usize>, quantum: u32, st: RrState) -> RrState {
    let (idx, rem) = st.queue[0];
    let run = min_u32(rem, quantum);
    let t1 = (st.time + run) as u32;
    let (q1, a1) = rr_admit(ps, ord, st.queue.drop_first(), st.arrived, t1);
    let left = (rem - run) as u32;
    let q2 = if left == 0 { q1 } else { q1.push((idx, left)) };
    let fin = if left == 0 { st.finished.push((idx, t1)) } else { st.finished };
    if q2.len() == 0 && a1 < ord.len() {
        let t2 = ps[ord[a1 as int] as int].arrival_time;
        let (q3, a3) = rr_admit(ps, ord, q2, a1, t2);
        RrState { queue: q3, time: t2, arrived: a3, finished: fin }
    } else {
        RrState { queue: q2, time: t1, arrived: a1, finished: fin }
    }
}

pub open spec fn finished_pids(ps: Seq<Pcb>, fin: Seq<(usize, u32)>) -> Seq<u32> {
    fin.map_values(|e: (usize, u32)| ps[e.0 as int].pid)
}

/// A complete round-robin run: `trace` lists the states between slices, the run stops when
/// the queue is empty, and the outcomes of the finished processes are listed in stable order of pid.
pub open spec fn is_round_robin(
    ps: Seq<Pcb>,
    quantum: u32,
    ord: Seq<usize>,
    trace: Seq<RrState>,
    by_pid: Seq<usize>,
    gantt: Seq<GanttSlice>,
    results: Seq<ProcResult>,
) -> bool {
    let last = trace[trace.len() - 1];
    &&& is_stable_order(arrivals(ps), ord)
    &&& trace.len() == gantt.len() + 1
    &&& trace[0] == rr_init(ps, ord)
    &&& forall|j: int|
        0 <= j < gantt.len() ==> {
            &&& (#[trigger] trace[j]).queue.len() > 0
            &&& trace[j + 1] == rr_step(ps, ord, quantum, trace[j])
            &&& gantt[j] == rr_slice(ps, quantum, trace[j])
        }
    &&& last.queue.len() == 0
    &&& is_stable_order(finished_pids(ps, last.finished), by_pid)
    &&& results.len() == last.finished.len()
    &&& forall|k: int|
        0 <= k < results.len() ==> {
            let e = last.finished[by_pid[k] as int];
            #[trigger] results[k] == result_for(ps[e.0 as int], e.1)
        }
}


// ───────────────────────── round robin: each process finishes once ─────────────────────────

/// How many entries of `q` are for the process at position `j`.
pub open spec fn entries_for(q: Seq<(usize, u32)>, j: int) -> nat
    decreases q.len(),
{
    if q.len() == 0 {
        0
    } else {
        entries_for(q.drop_last(), j) + if q.last().0 == j {
            1nat
        } else {
            0
        }
    }
}

/// How many times position `j` occurs in `o`.
pub open spec fn occurrences(o: Seq<usize>, j: int) -> nat
    decreases o.len(),
{
    if o.len() == 0 {
        0
    } else {
        occurrences(o.drop_last(), j) + if o.last() == j {
            1nat
        } else {
            0
        }
    }
}

/// Every process is in exactly one place: queued, finished or still to come, as often as
/// `ord` lists it; and the queue runs dry only once everybody has been admitted.
spec fn rr_accounted(ord: Seq<usize>, st: RrState) -> bool {
    &&& st.arrived <= ord.len()
    &&& forall|j: int|
        #[trigger] occurrences(ord, j) == entries_for(st.queue, j) + entries_for(st.finished, j) + occurrences(
            ord.skip(st.arrived as int),
            j,
        )
}

proof fn lemma_entries_push(q: Seq<(usize, u32)>, e: (usize, u32), j: int)
    ensures
        entries_for(q.push(e), j) == entries_for(q, j) + if e.0 == j {
            1nat
        } else {
            0
        },
{
    assert(q.push(e).drop_last() =~= q);
}

proof fn lemma_entries_front(q: Seq<(usize, u32)>, j: int)
    requires
        q.len() > 0,
    ensures
        entries_for(q, j) == entries_for(q.drop_first(), j) + if q[0].0 == j {
            1nat
        } else {
            0
        },
    decreases q.len(),
{
    if q.len() > 1 {
        lemma_entries_front(q.drop_last(), j);
        assert(q.drop_last().drop_first() =~= q.drop_first().drop_last());
    } else {
        assert(q.drop_first() =~= Seq::<(usize, u32)>::empty());
        assert(q.drop_last() =~= Seq::<(usize, u32)>::empty());
    }
}

proof fn lemma_occurrences_front(o: Seq<usize>, j: int)
    requires
        o.len() > 0,
    ensures
        occurrences(o, j) == occurrences(o.drop_first(), j) + if o[0] == j {
            1nat
        } else {
            0
        },
    decreases o.len(),
{
    if o.len() > 1 {
        lemma_occurrences_front(o.drop_last(), j);
        assert(o.drop_last().drop_first() =~= o.drop_first().drop_last());
    } else {
        assert(o.drop_first() =~= Seq::<usize>::empty());
        assert(o.drop_last() =~= Seq::<usize>::empty());
    }
}

/// Admitting moves processes from those still to come to the back of the queue.
proof fn lemma_admit_accounts(ps: Seq<Pcb>, ord: Seq<usize>, queue: Seq<(usize, u32)>, arrived: nat, time: u32, j: int)
    requires
        arrived <= ord.len(),
    ensures
        rr_admit(ps, ord, queue, arrived, time).1 <= ord.len(),
        rr_admit(ps, ord, queue, arrived, time).1 >= arrived,
        entries_for(rr_admit(ps, ord, queue, arrived, time).0, j) + occurrences(
            ord.skip(rr_admit(ps, ord, queue, arrived, time).1 as int),
            j,
        ) == entries_for(queue, j) + occurrences(ord.skip(arrived as int), j),
        arrived < ord.len() && ps[ord[arrived as int] as int].arrival_time <= time ==> rr_admit(
            ps,
            ord,
            queue,
            arrived,
            time,
        ).0.len() > 0,
        rr_admit(ps, ord, queue, arrived, time).0.len() >= queue.len(),
    decreases ord.len() - arrived,
{
    if arrived < ord.len() && ps[ord[arrived as int] as int].arrival_time <= time {
        let e = (ord[arrived as int], ps[ord[arrived as int] as int].remaining_time);
        lemma_admit_accounts(ps, ord, queue.push(e), arrived + 1, time, j);
        lemma_entries_push(queue, e, j);
        lemma_occurrences_front(ord.skip(arrived as int), j);
        assert(ord.skip(arrived as int).drop_first() =~= ord.skip((arrived + 1) as int));
    }
}

proof fn lemma_init_accounts(ps: Seq<Pcb>, ord: Seq<usize>)
    ensures
        rr_accounted(ord, rr_init(ps, ord)),
        rr_init(ps, ord).queue.len() == 0 ==> rr_init(ps, ord).arrived == ord.len(),
{
    let e = Seq::<(usize, u32)>::empty();
    let (q, a) = rr_admit(ps, ord, e, 0, 0);
    assert(ord.skip(0) =~= ord);
    assert forall|j: int| #[trigger] occurrences(ord, j) == entries_for(rr_init(ps, ord).queue, j) + entries_for(
        rr_init(ps, ord).finished,
        j,
    ) + occurrences(ord.skip(rr_init(ps, ord).arrived as int), j) by {
        lemma_admit_accounts(ps, ord, e, 0, 0, j);
        if q.len() == 0 && a < ord.len() {
            lemma_admit_accounts(ps, ord, q, a, ps[ord[a as int] as int].arrival_time, j);
        }
    }
    lemma_admit_accounts(ps, ord, e, 0, 0, 0);
    if q.len() == 0 && a < ord.len() {
        lemma_admit_accounts(ps, ord, q, a, ps[ord[a as int] as int].arrival_time, 0);
    }
}

proof fn lemma_step_accounts(ps: Seq<Pcb>, ord: Seq<usize>, quantum: u32, st: RrState)
    requires
        rr_accounted(ord, st),
        st.queue.len() > 0,
    ensures
        rr_accounted(ord, rr_step(ps, ord, quantum, st)),
        rr_step(ps, ord, quantum, st).queue.len() == 0 ==> rr_step(ps, ord, quantum, st).arrived == ord.len(),
{
    let (idx, rem) = st.queue[0];
    let run = min_u32(rem, quantum);
    let t1 = (st.time + run) as u32;
    let (q1, a1) = rr_admit(ps, ord, st.queue.drop_first(), st.arrived, t1);
    let left = (rem - run) as u32;
    let q2 = if left == 0 { q1 } else { q1.push((idx, left)) };
    let fin = if left == 0 { st.finished.push((idx, t1)) } else { st.finished };
    let nst = rr_step(ps, ord, quantum, st);
    assert forall|j: int| #[trigger] occurrences(ord, j) == entries_for(nst.queue, j) + entries_for(nst.finished, j)
        + occurrences(ord.skip(nst.arrived as int), j) by {
        lemma_entries_front(st.queue, j);
        lemma_admit_accounts(ps, ord, st.queue.drop_first(), st.arrived, t1, j);
        lemma_entries_push(q1, (idx, left), j);
        lemma_entries_push(st.finished, (idx, t1), j);
        if q2.len() == 0 && a1 < ord.len() {
            lemma_admit_accounts(ps, ord, q2, a1, ps[ord[a1 as int] as int].arrival_time, j);
        }
    }
    lemma_admit_accounts(ps, ord, st.queue.drop_first(), st.arrived, t1, 0);
    if q2.len() == 0 && a1 < ord.len() {
        lemma_admit_accounts(ps, ord, q2, a1, ps[ord[a1 as int] as int].arrival_time, 0);
    }
}

proof fn lemma_trace_accounts(ps: Seq<Pcb>, quantum: u32, ord: Seq<usize>, trace: Seq<RrState>, i: int)
    requires
        trace.len() > 0,
        trace[0] == rr_init(ps, ord),
        forall|j: int|
            0 <= j < trace.len() - 1 ==> {
                &&& (#[trigger] trace[j]).queue.len() > 0
                &&& trace[j + 1] == rr_step(ps, ord, quantum, trace[j])
            },
        0 <= i < trace.len(),
    ensures
        rr_accounted(ord, trace[i]),
        trace[i].queue.len() == 0 ==> trace[i].arrived == ord.len(),
    decreases i,
{
    if i == 0 {
        lemma_init_accounts(ps, ord);
    } else {
        lemma_trace_accounts(ps, quantum, ord, trace, i - 1);
        assert(trace[i - 1].queue.len() > 0);
        lemma_step_accounts(ps, ord, quantum, trace[i - 1]);
    }
}

proof fn lemma_each_once_occurs_once(ord: Seq<usize>, j: int)
    requires
        lists_each_once(ord.len() as int, ord),
        0 <= j < ord.len(),
        j <= usize::MAX,
    ensures
        occurrences(ord, j) == 1,
    decreases ord.len(),
{
    let n = ord.len() as int;
    assert(ord.contains(j as usize));
    let k = choose|k: int| 0 <= k < n && ord[k] == j as usize;
    assert(ord[k] == j);
    lemma_occurs_at_most(ord, j, k);
}

/// A position listed at `k` and nowhere else occurs once.
proof fn lemma_occurs_at_most(ord: Seq<usize>, j: int, k: int)
    requires
        0 <= k < ord.len(),
        ord[k] == j,
        forall|a: int, b: int| 0 <= a < b < ord.len() ==> #[trigger] ord[a] != #[trigger] ord[b],
    ensures
        occurrences(ord, j) == 1,
    decreases ord.len(),
{
    let o = ord.drop_last();
    if k == ord.len() - 1 {
        assert forall|m: int| 0 <= m < o.len() implies o[m] != j by {
            assert(ord[m] != ord[k]);
        }
        lemma_occurs_none(o, j);
    } else {
        assert(ord.last() != j) by {
            assert(ord[k] != ord[ord.len() - 1]);
        }
        assert forall|a: int, b: int| 0 <= a < b < o.len() implies #[trigger] o[a] != #[trigger] o[b] by {
            assert(ord[a] != ord[b]);
        }
        lemma_occurs_at_most(o, j, k);
    }
}

proof fn lemma_occurs_none(o: Seq<usize>, j: int)
    requires
        forall|m: int| 0 <= m < o.len() ==> o[m] != j,
    ensures
        occurrences(o, j) == 0,
    decreases o.len(),
{
    if o.len() > 0 {
        lemma_occurs_none(o.drop_last(), j);
    }
}

/// Round robin finishes every process exactly once: the final state records one finish
/// for each position of the process list (and none for any other position).
pub proof fn law_round_robin_finishes_each_once(
    ps: Seq<Pcb>,
    quantum: u32,
    ord: Seq<usize>,
    trace: Seq<RrState>,
    by_pid: Seq<usize>,
    gantt: Seq<GanttSlice>,
    results: Seq<ProcResult>,
)
    requires
        is_round_robin(ps, quantum, ord, trace, by_pid, gantt, results),
        ps.len() <= usize::MAX,
    ensures
        forall|j: int| 0 <= j < ps.len() ==> #[trigger] entries_for(trace[trace.len() - 1].finished, j) == 1,
        forall|j: int| !(0 <= j < ps.len()) ==> #[trigger] entries_for(trace[trace.len() - 1].finished, j) == 0,
{
    let last = trace[trace.len() - 1];
    lemma_trace_accounts(ps, quantum, ord, trace, trace.len() - 1);
    lemma_stable_order_each_once(arrivals(ps), ord);
    assert(ord.skip(ord.len() as int) =~= Seq::<usize>::empty());
    assert(last.queue =~= Seq::<(usize, u32)>::empty());
    assert forall|j: int| 0 <= j < ps.len() implies #[trigger] entries_for(last.finished, j) == 1 by {
        assert(occurrences(ord, j) == entries_for(last.queue, j) + entries_for(last.finished, j) + occurrences(
            ord.skip(last.arrived as int),
            j,
        ));
        lemma_each_once_occurs_once(ord, j);
    }
    assert forall|j: int| !(0 <= j < ps.len()) implies #[trigger] entries_for(last.finished, j) == 0 by {
        assert(occurrences(ord, j) == entries_for(last.queue, j) + entries_for(last.finished, j) + occurrences(
            ord.skip(last.arrived as int),
            j,
        ));
        assert forall|m: int| 0 <= m < ord.len() implies ord[m] != j by {
            assert(ord[m] < ps.len());
        }
        lemma_occurs_none(ord, j);
    }
}

/// Sum of the time still to run over a ready queue.
pub open spec fn queue_sum(q: Seq<(usize, u32)>) -> int
    decreases q.len(),
{
    if q.len() == 0 {
        0
    } else {
        queue_sum(q.drop_last()) + q.last().1
    }
}

/// Sum of the time to run of the processes not yet admitted (from position `a` of `ord` on).
pub open spec fn pending_sum(ps: Seq<Pcb>, ord: Seq<usize>, a: int) -> int
    decreases ord.len() - a,
{
    if 0 <= a < ord.len() {
        ps[ord[a] as int].remaining_time + pending_sum(ps, ord, a + 1)
    } else {
        0
    }
}

spec fn entry_ok(ps: Seq<Pcb>, e: (usize, u32), time: u32) -> bool {
    &&& e.0 < ps.len()
    &&& e.1 <= ps[e.0 as int].remaining_time
    &&& ps[e.0 as int].arrival_time + (ps[e.0 as int].remaining_time - e.1) <= time
}

spec fn finished_ok(ps: Seq<Pcb>, e: (usize, u32)) -> bool {
    &&& e.0 < ps.len()
    &&& ps[e.0 as int].arrival_time + ps[e.0 as int].remaining_time <= e.1
}

spec fn suffix_mask(ord: Seq<usize>, a: int, n: nat) -> Seq<bool> {
    Seq::new(n, |j: int| exists|m: int| a <= m < ord.len() && ord[m] == j)
}

proof fn lemma_queue_sum_nonneg(q: Seq<(usize, u32)>)
    ensures
        queue_sum(q) >= 0,
    decreases q.len(),
{
    if q.len() > 0 {
        lemma_queue_sum_nonneg(q.drop_last());
    }
}

proof fn lemma_queue_sum_front(q: Seq<(usize, u32)>)
    requires
        q.len() > 0,
    ensures
        queue_sum(q) == q[0].1 + queue_sum(q.drop_first()),
    decreases q.len(),
{
    if q.len() == 1 {
        assert(q.drop_first() =~= Seq::<(usize, u32)>::empty());
        assert(q.drop_last() =~= Seq::<(usize, u32)>::empty());
    } else {
        lemma_queue_sum_front(q.drop_last());
        assert(q.drop_last().drop_first() =~= q.drop_first().drop_last());
    }
}

proof fn lemma_pending_masked(ps: Seq<Pcb>, ord: Seq<usize>, a: int)
    requires
        is_stable_order(arrivals(ps), ord),
        0 <= a <= ord.len(),
    ensures
        pending_sum(ps, ord, a) == masked_total(remainings(ps), suffix_mask(ord, a, ps.len())),
    decreases ord.len() - a,
{
    let n = ps.len();
    if a == ord.len() {
        lemma_masked_none(remainings(ps), suffix_mask(ord, a, n));
    } else {
        lemma_pending_masked(ps, ord, a + 1);
        let x = ord[a] as int;
        let m1 = suffix_mask(ord, a + 1, n);
        if m1[x] {
            let m = choose|m: int| a + 1 <= m < ord.len() && ord[m] == x;
            lemma_stable_order_distinct(arrivals(ps), ord, a, m);
        }
        assert(suffix_mask(ord, a, n) =~= m1.update(x, true)) by {
            assert forall|j: int| 0 <= j < n implies suffix_mask(ord, a, n)[j] == m1.update(x, true)[j] by {
                if j != x && suffix_mask(ord, a, n)[j] {
                    let m = choose|m: int| a <= m < ord.len() && ord[m] == j;
                    assert(a + 1 <= m);
                }
                if j == x {
                    assert(a <= a < ord.len() && ord[a] == j);
                }
            }
        }
        lemma_masked_set(remainings(ps), m1, x);
    }
}

proof fn lemma_pending_bounds(ps: Seq<Pcb>, ord: Seq<usize>, a: int)
    requires
        is_stable_order(arrivals(ps), ord),
        0 <= a <= ord.len(),
    ensures
        0 <= pending_sum(ps, ord, a) <= total(remainings(ps)),
{
    lemma_pending_masked(ps, ord, a);
    lemma_masked_bounds(remainings(ps), suffix_mask(ord, a, ps.len()));
}

/// Admits, in arrival order, the processes that have arrived by `time`.
fn rr_admit_exec(
    processes: &Vec<Pcb>,
    ord: &Vec<usize>,
    queue: &mut VecDeque<(usize, u32)>,
    arrived: &mut usize,
    time: u32,
)
    requires
        is_stable_order(arrivals(processes@), ord@),
        *old(arrived) <= ord.len(),
        forall|k: int| 0 <= k < old(queue)@.len() ==> entry_ok(processes@, #[trigger] old(queue)@[k], time),
    ensures
        (final(queue)@, *final(arrived) as nat) == rr_admit(
            processes@,
            ord@,
            old(queue)@,
            *old(arrived) as nat,
            time,
        ),
        *old(arrived) <= *final(arrived) <= ord.len(),
        queue_sum(final(queue)@) + pending_sum(processes@, ord@, *final(arrived) as int) == queue_sum(old(queue)@)
            + pending_sum(processes@, ord@, *old(arrived) as int),
        final(queue)@.len() + ord.len() - *final(arrived) == old(queue)@.len() + ord.len() - *old(arrived),
        forall|k: int| 0 <= k < final(queue)@.len() ==> entry_ok(processes@, #[trigger] final(queue)@[k], time),
        *final(arrived) < ord.len() ==> processes@[ord@[*final(arrived) as int] as int].arrival_time > time,
{
    let ghost ps = processes@;
    let ghost target = rr_admit(ps, ord@, queue@, *arrived as nat, time);
    let ghost r0 = queue_sum(queue@) + pending_sum(ps, ord@, *arrived as int);
    let ghost c0 = queue@.len() + ord.len() - *arrived;
    let ghost a0 = *arrived;
    while *arrived < ord.len() && processes[ord[*arrived]].arrival_time <= time
        invariant
            ps == processes@,
            is_stable_order(arrivals(ps), ord@),
            a0 <= *arrived <= ord.len(),
            target == rr_admit(ps, ord@, queue@, *arrived as nat, time),
            queue_sum(queue@) + pending_sum(ps, ord@, *arrived as int) == r0,
            queue@.len() + ord.len() - *arrived == c0,
            forall|k: int| 0 <= k < queue@.len() ==> entry_ok(ps, #[trigger] queue@[k], time),
        decreases ord.len() - *arrived,
    {
        let i = ord[*arrived];
        let ghost old_q = queue@;
        queue.push_back((i, processes[i].remaining_time));
        *arrived = *arrived + 1;
        proof {
            assert(queue@ == old_q.push((i, ps[i as int].remaining_time)));
            assert(queue@.drop_last() =~= old_q);
            assert forall|k: int| 0 <= k < queue@.len() implies entry_ok(ps, #[trigger] queue@[k], time) by {
                if k < old_q.len() {
                    assert(queue@[k] == old_q[k]);
                }
            }
        }
    }
}

/// The measure that every slice decreases (with the queue length as tie-breaker):
/// the time still to run over the queue and the processes not yet admitted.
spec fn rr_work(ps: Seq<Pcb>, ord: Seq<usize>, queue: Seq<(usize, u32)>, arrived: int) -> int {
    queue_sum(queue) + pending_sum(ps, ord, arrived)
}

spec fn rr_inv(
    ps: Seq<Pcb>,
    ord: Seq<usize>,
    quantum: u32,
    queue: Seq<(usize, u32)>,
    time: u32,
    arrived: int,
    finished: Seq<(usize, u32)>,
) -> bool {
    &&& is_stable_order(arrivals(ps), ord)
    &&& clock_fits(ps, remainings(ps))
    &&& quantum > 0 || forall|i: int| 0 <= i < ps.len() ==> #[trigger] ps[i].remaining_time == 0
    &&& 0 <= arrived <= ps.len()
    &&& forall|k: int| 0 <= k < queue.len() ==> entry_ok(ps, #[trigger] queue[k], time)
    &&& forall|k: int| 0 <= k < finished.len() ==> finished_ok(ps, #[trigger] finished[k])
    &&& time + rr_work(ps, ord, queue, arrived) <= u32::MAX
    &&& rr_work(ps, ord, queue, arrived) <= total(remainings(ps))
}

/// Jumping the clock to the arrival of the next process to admit leaves room for all the
/// work not yet admitted.
proof fn lemma_rr_jump(ps: Seq<Pcb>, ord: Seq<usize>, a: int)
    requires
        is_stable_order(arrivals(ps), ord),
        clock_fits(ps, remainings(ps)),
        0 <= a < ord.len(),
    ensures
        ps[ord[a] as int].arrival_time + pending_sum(ps, ord, a) <= u32::MAX,
{
    let x = ord[a] as int;
    let mask = suffix_mask(ord, a, ps.len());
    lemma_pending_masked(ps, ord, a);
    assert forall|j: int| 0 <= j < ps.len() && #[trigger] mask[j] implies ps[x].arrival_time <= ps[j].arrival_time by {
        let m = choose|m: int| a <= m < ord.len() && ord[m] == j;
        if m > a {
            assert(key_before(arrivals(ps), ord[a] as int, ord[m] as int));
        }
    }
    lemma_jump_fits(ps, remainings(ps), mask, x);
}

/// Runs one slice of round robin on the exec state.
#[verifier::rlimit(60)]
fn rr_step_exec(
    processes: &Vec<Pcb>,
    ord: &Vec<usize>,
    quantum: u32,
    queue: &mut VecDeque<(usize, u32)>,
    time: &mut u32,
    arrived: &mut usize,
    finished: &mut Vec<(usize, u32)>,
) -> (slice: GanttSlice)
    requires
        old(queue)@.len() > 0,
        rr_inv(processes@, ord@, quantum, old(queue)@, *old(time), *old(arrived) as int, old(finished)@),
    ensures
        rr_inv(processes@, ord@, quantum, final(queue)@, *final(time), *final(arrived) as int, final(finished)@),
        (RrState {
            queue: final(queue)@,
            time: *final(time),
            arrived: *final(arrived) as nat,
            finished: final(finished)@,
        }) == rr_step(
            processes@,
            ord@,
            quantum,
            RrState {
                queue: old(queue)@,
                time: *old(time),
                arrived: *old(arrived) as nat,
                finished: old(finished)@,
            },
        ),
        slice == rr_slice(
            processes@,
            quantum,
            RrState {
                queue: old(queue)@,
                time: *old(time),
                arrived: *old(arrived) as nat,
                finished: old(finished)@,
            },
        ),
        rr_work(processes@, ord@, final(queue)@, *final(arrived) as int) < rr_work(
            processes@,
            ord@,
            old(queue)@,
            *old(arrived) as int,
        ) || (rr_work(processes@, ord@, final(queue)@, *final(arrived) as int) == rr_work(
            processes@,
            ord@,
            old(queue)@,
            *old(arrived) as int,
        ) && final(queue)@.len() + ord.len() - *final(arrived) < old(queue)@.len() + ord.len()
            - *old(arrived)),
        slice.start == *old(time),
        slice.start <= slice.end <= *final(time),
        slice.end <= slice.start + quantum,
{
    let ghost ps = processes@;
    let ghost st = RrState { queue: queue@, time: *time, arrived: *arrived as nat, finished: finished@ };
    let ghost w0 = rr_work(ps, ord@, queue@, *arrived as int);
    let n = processes.len();
    proof {
        lemma_queue_sum_front(queue@);
        lemma_queue_sum_nonneg(queue@.drop_first());
        lemma_pending_bounds(ps, ord@, *arrived as int);
        assert(entry_ok(ps, queue@[0], *time));
    }
    let (idx, rem) = queue.pop_front().unwrap();
    let run = if rem < quantum { rem } else { quantum };
    let start = *time;
    *time = *time + run;
    let left = rem - run;
    let slice = GanttSlice { pid: processes[idx].pid, start, end: *time };
    proof {
        assert(queue@ == st.queue.drop_first());
        assert forall|k: int| 0 <= k < queue@.len() implies entry_ok(ps, #[trigger] queue@[k], *time) by {
            assert(queue@[k] == st.queue[k + 1]);
            assert(entry_ok(ps, st.queue[k + 1], start));
        }
        if run == 0 {
            if quantum == 0 {
                assert(ps[idx as int].remaining_time == 0);
            }
            assert(left == 0);
        }
    }
    rr_admit_exec(processes, ord, queue, arrived, *time);
    let ghost q1 = queue@;
    let ghost a1 = *arrived;
    let ghost f0 = finished@;
    if left == 0 {
        finished.push((idx, *time));
    } else {
        queue.push_back((idx, left));
    }
    proof {
        if left != 0 {
            assert(queue@.drop_last() =~= q1);
            assert forall|k: int| 0 <= k < queue@.len() implies entry_ok(ps, #[trigger] queue@[k], *time) by {
                if k < q1.len() {
                    assert(queue@[k] == q1[k]);
                }
            }
        }
        assert forall|k: int| 0 <= k < finished@.len() implies finished_ok(ps, #[trigger] finished@[k]) by {
            if k < f0.len() {
                assert(finished@[k] == f0[k]);
            }
        }
        assert(rr_work(ps, ord@, queue@, *arrived as int) == w0 - run);
    }
    if queue.len() == 0 && *arrived < n {
        *time = processes[ord[*arrived]].arrival_time;
        proof {
            assert(queue@ =~= Seq::<(usize, u32)>::empty());
            lemma_queue_sum_nonneg(queue@);
            lemma_pending_bounds(ps, ord@, *arrived as int);
            lemma_rr_jump(ps, ord@, *arrived as int);
        }
        rr_admit_exec(processes, ord, queue, arrived, *time);
    }
    slice
}

/// Round robin with the given time quantum. Processes are admitted in stable order of
/// arrival; while nobody is ready the clock jumps to the next arrival (also before the first
/// slice); the outcomes are listed in stable order of pid. Each process runs for its
/// `remaining_time`, which a well-formed process control block (`Pcb::wf`, as every one
/// made by `Pcb::new` is) has at least as long as its burst.
#[verifier::rlimit(60)]
pub fn round_robin(processes: &Vec<Pcb>, quantum: u32) -> (r: ScheduleResult)
    requires
        clock_fits(processes@, remainings(processes@)),
        forall|i: int| 0 <= i < processes@.len() ==> (#[trigger] processes@[i]).wf(),
        quantum > 0 || forall|i: int| 0 <= i < processes@.len() ==> #[trigger] processes@[i].remaining_time == 0,
    ensures
        exists|ord: Seq<usize>, trace: Seq<RrState>, by_pid: Seq<usize>|
            is_round_robin(processes@, quantum, ord, trace, by_pid, r.gantt@, r.results@),
        slices_in_order(r.gantt@),
        forall|j: int| 0 <= j < r.gantt@.len() ==> #[trigger] r.gantt@[j].end <= r.gantt@[j].start + quantum,
        forall|k: int| 0 <= k < r.results@.len() ==> outcome_consistent(#[trigger] r.results@[k]),
{
    let ghost ps = processes@;
    let n = processes.len();
    let keys = arrival_keys(processes);
    let ord = stable_order(&keys);
    let mut queue: VecDeque<(usize, u32)> = VecDeque::new();
    let mut time: u32 = 0;
    let mut arrived: usize = 0;
    let mut gantt: Vec<GanttSlice> = Vec::new();
    let mut finished: Vec<(usize, u32)> = Vec::new();
    rr_admit_exec(processes, &ord, &mut queue, &mut arrived, time);
    proof {
        lemma_clock_total(ps, remainings(ps));
        lemma_pending_bounds(ps, ord@, 0);
        lemma_pending_bounds(ps, ord@, arrived as int);
        lemma_queue_sum_nonneg(queue@);
        assert(queue_sum(Seq::<(usize, u32)>::empty()) == 0);
    }
    let ghost q0 = queue@;
    let ghost a0 = arrived;
    if queue.len() == 0 && arrived < n {
        time = processes[ord[arrived]].arrival_time;
        proof {
            assert(queue@ =~= Seq::<(usize, u32)>::empty());
            lemma_rr_jump(ps, ord@, arrived as int);
        }
        rr_admit_exec(processes, &ord, &mut queue, &mut arrived, time);
        proof {
            lemma_pending_bounds(ps, ord@, arrived as int);
            lemma_queue_sum_nonneg(queue@);
        }
    }
    let ghost mut trace: Seq<RrState> = seq![
        RrState { queue: queue@, time, arrived: arrived as nat, finished: Seq::empty() },
    ];
    proof {
        assert(rr_init(ps, ord@) == trace[0]);
    }
    while queue.len() > 0
        invariant
            ps == processes@,
            n == ps.len(),
            rr_inv(ps, ord@, quantum, queue@, time, arrived as int, finished@),
            trace.len() == gantt.len() + 1,
            trace[0] == rr_init(ps, ord@),
            forall|j: int|
                0 <= j < gantt.len() ==> {
                    &&& (#[trigger] trace[j]).queue.len() > 0
                    &&& trace[j + 1] == rr_step(ps, ord@, quantum, trace[j])
                    &&& gantt@[j] == rr_slice(ps, quantum, trace[j])
                },
            trace[trace.len() - 1] == (RrState { queue: queue@, time, arrived: arrived as nat, finished: finished@ }),
            slices_in_order(gantt@),
            gantt@.len() > 0 ==> gantt@[gantt@.len() - 1].end <= time,
            forall|j: int| 0 <= j < gantt@.len() ==> #[trigger] gantt@[j].end <= gantt@[j].start + quantum,
        decreases rr_work(ps, ord@, queue@, arrived as int), queue@.len() + n - arrived,
    {
        let ghost st = trace[trace.len() - 1];
        let ghost g0 = gantt@;
        let slice = rr_step_exec(processes, &ord, quantum, &mut queue, &mut time, &mut arrived, &mut finished);
        gantt.push(slice);
        proof {
            assert forall|j: int| 0 <= j < gantt@.len() implies prev_end(gantt@, j) <= (#[trigger] gantt@[j]).start
                <= gantt@[j].end by {
                if j < g0.len() {
                    assert(gantt@[j] == g0[j]);
                    assert(prev_end(g0, j) <= g0[j].start <= g0[j].end);
                    if j > 0 {
                        assert(gantt@[j - 1] == g0[j - 1]);
                    }
                } else if j > 0 {
                    assert(gantt@[j - 1] == g0[j - 1]);
                }
            }
            assert forall|j: int| 0 <= j < gantt@.len() implies #[trigger] gantt@[j].end <= gantt@[j].start + quantum by {
                if j < g0.len() {
                    assert(gantt@[j] == g0[j]);
                }
            }
            lemma_queue_sum_nonneg(queue@);
            lemma_pending_bounds(ps, ord@, arrived as int);
            let new_st = RrState { queue: queue@, time, arrived: arrived as nat, finished: finished@ };
            let old_trace = trace;
            trace = trace.push(new_st);
            assert forall|j: int| 0 <= j < gantt.len() implies {
                &&& (#[trigger] trace[j]).queue.len() > 0
                &&& trace[j + 1] == rr_step(ps, ord@, quantum, trace[j])
                &&& gantt@[j] == rr_slice(ps, quantum, trace[j])
            } by {
                assert(trace[j] == old_trace[j]);
                if j + 1 < old_trace.len() {
                    assert(trace[j + 1] == old_trace[j + 1]);
                }
            }
        }
    }
    // outcomes in stable order of pid
    let mut pid_keys: Vec<u32> = Vec::new();
    let mut k: usize = 0;
    while k < finished.len()
        invariant
            ps == processes@,
            k <= finished.len(),
            forall|j: int| 0 <= j < finished@.len() ==> finished_ok(ps, #[trigger] finished@[j]),
            pid_keys@ == finished_pids(ps, finished@).subrange(0, k as int),
        decreases finished.len() - k,
    {
        assert(finished_ok(ps, finished@[k as int]));
        pid_keys.push(processes[finished[k].0].pid);
        k = k + 1;
        assert(pid_keys@ =~= finished_pids(ps, finished@).subrange(0, k as int));
    }
    assert(pid_keys@ =~= finished_pids(ps, finished@));
    let by_pid = stable_order(&pid_keys);
    let mut results: Vec<ProcResult> = Vec::new();
    let mut k: usize = 0;
    while k < by_pid.len()
        invariant
            ps == processes@,
            forall|i: int| 0 <= i < ps.len() ==> #[trigger] ps[i].burst_time <= ps[i].remaining_time,
            trace.len() > 0,
            is_stable_order(finished_pids(ps, finished@), by_pid@),
            k <= by_pid.len(),
            forall|j: int| 0 <= j < finished@.len() ==> finished_ok(ps, #[trigger] finished@[j]),
            results.len() == k,
            forall|m: int|
                0 <= m < k ==> {
                    let e = finished@[by_pid@[m] as int];
                    #[trigger] results@[m] == result_for(ps[e.0 as int], e.1)
                },
            forall|m: int| 0 <= m < k ==> outcome_consistent(#[trigger] results@[m]),
        decreases by_pid.len() - k,
    {
        let e = finished[by_pid[k]];
        assert(finished_ok(ps, e));
        let p = processes[e.0];
        results.push(
            ProcResult {
                pid: p.pid,
                arrival_time: p.arrival_time,
                burst_time: p.burst_time,
                finish_time: e.1,
                turnaround_time: e.1 - p.arrival_time,
                waiting_time: e.1 - p.arrival_time - p.burst_time,
            },
        );
        k = k + 1;
    }
    let r = ScheduleResult { gantt, results };
    assert(is_round_robin(ps, quantum, ord@, trace, by_pid@, r.gantt@, r.results@));
    r
}

} // verus!
