use vstd::prelude::*;
use std::collections::{HashMap, VecDeque};
use crate::sums::{count_set, lemma_count_none, lemma_count_all, lemma_count_set};

verus! {

broadcast use vstd::std_specs::hash::group_hash_axioms;

/// What happened on one page reference: the frames afterwards, whether it faulted,
/// and the page evicted to make room, if any.
#[derive(Debug)]
pub struct PageResult {
    pub reference: u32,
    pub frames: Vec<Option<u32>>,
    pub fault: bool,
    pub evicted: Option<u32>,
}

/// One result per reference, with the fault and hit counts.
pub struct PageSummary {
    pub results: Vec<PageResult>,
    pub faults: usize,
    pub hits: usize,
}

/// The model of one reference's outcome.
pub ghost struct PageStep {
    pub frames: Seq<Option<u32>>,
    pub fault: bool,
    pub evicted: Option<u32>,
}

/// `r` reports `page` with outcome `s`.
pub open spec fn reports(r: PageResult, page: u32, s: PageStep) -> bool {
    &&& r.reference == page
    &&& r.frames@ == s.frames
    &&& r.fault == s.fault
    &&& r.evicted == s.evicted
}

/// Number of results that are faults.
pub open spec fn fault_count(rs: Seq<PageResult>) -> int
    decreases rs.len(),
{
    if rs.len() == 0 {
        0
    } else {
        fault_count(rs.drop_last()) + if rs.last().fault {
            1int
        } else {
            0
        }
    }
}

/// `i` is the first slot of `frames` holding `v`.
pub open spec fn is_first_slot(frames: Seq<Option<u32>>, v: Option<u32>, i: int) -> bool {
    &&& 0 <= i < frames.len()
    &&& frames[i] == v
    &&& forall|j: int| 0 <= j < i ==> frames[j] != v
}

/// The first slot of `frames` holding `v`.
pub open spec fn first_slot(frames: Seq<Option<u32>>, v: Option<u32>) -> int {
    choose|i: int| is_first_slot(frames, v, i)
}

/// Frames that all start empty.
pub open spec fn empty_frames(cap: nat) -> Seq<Option<u32>> {
    Seq::new(cap, |i: int| None::<u32>)
}

pub open spec fn occupancy(frames: Seq<Option<u32>>) -> Seq<bool> {
    frames.map_values(|o: Option<u32>| o is Some)
}

// ───────────────────────── shared exec helpers ─────────────────────────

proof fn lemma_first_slot(frames: Seq<Option<u32>>, v: Option<u32>, i: int)
    requires
        is_first_slot(frames, v, i),
    ensures
        first_slot(frames, v) == i,
{
    let k = first_slot(frames, v);
    assert(is_first_slot(frames, v, k));
    if k < i {
        assert(frames[k] != v);
    } else if k > i {
        assert(frames[i] != v);
    }
}

fn same_frame(a: Option<u32>, b: Option<u32>) -> (r: bool)
    ensures
        r == (a == b),
{
    match (a, b) {
        (None, None) => true,
        (Some(x), Some(y)) => x == y,
        _ => false,
    }
}

/// The first slot holding `v`, if any.
fn position(frames: &Vec<Option<u32>>, v: Option<u32>) -> (r: Option<usize>)
    ensures
        r matches Some(i) ==> is_first_slot(frames@, v, i as int),
        r is None ==> forall|j: int| 0 <= j < frames@.len() ==> frames@[j] != v,
{
    let mut i: usize = 0;
    while i < frames.len()
        invariant
            i <= frames.len(),
            forall|j: int| 0 <= j < i ==> frames@[j] != v,
        decreases frames.len() - i,
    {
        if same_frame(frames[i], v) {
            return Some(i);
        }
        i = i + 1;
    }
    None
}

fn snapshot(frames: &Vec<Option<u32>>) -> (r: Vec<Option<u32>>)
    ensures
        r@ == frames@,
{
    let mut r: Vec<Option<u32>> = Vec::new();
    let mut i: usize = 0;
    while i < frames.len()
        invariant
            i <= frames.len(),
            r@ == frames@.subrange(0, i as int),
        decreases frames.len() - i,
    {
        r.push(frames[i]);
        i = i + 1;
        assert(r@ =~= frames@.subrange(0, i as int));
    }
    assert(r@ =~= frames@);
    r
}

fn new_frames(cap: usize) -> (r: Vec<Option<u32>>)
    ensures
        r@ == empty_frames(cap as nat),
{
    let mut r: Vec<Option<u32>> = Vec::new();
    while r.len() < cap
        invariant
            r.len() <= cap,
            forall|j: int| 0 <= j < r.len() ==> #[trigger] r@[j] == None::<u32>,
        decreases cap - r.len(),
    {
        r.push(None);
    }
    assert(r@ =~= empty_frames(cap as nat));
    r
}

proof fn lemma_fault_count_push(rs: Seq<PageResult>, r: PageResult)
    ensures
        fault_count(rs.push(r)) == fault_count(rs) + if r.fault {
            1int
        } else {
            0
        },
{
    assert(rs.push(r).drop_last() =~= rs);
}

proof fn lemma_fault_count_bounds(rs: Seq<PageResult>)
    ensures
        0 <= fault_count(rs) <= rs.len(),
    decreases rs.len(),
{
    if rs.len() > 0 {
        lemma_fault_count_bounds(rs.drop_last());
    }
}

proof fn lemma_occupancy_update(frames: Seq<Option<u32>>, i: int, v: Option<u32>)
    requires
        0 <= i < frames.len(),
    ensures
        occupancy(frames.update(i, v)) == occupancy(frames).update(i, v is Some),
{
    assert(occupancy(frames.update(i, v)) =~= occupancy(frames).update(i, v is Some));
}

// ───────────────────────── FIFO ─────────────────────────

/// The FIFO simulation state: the frames and the resident pages in order of loading.
pub ghost struct FifoState {
    pub frames: Seq<Option<u32>>,
    pub queue: Seq<u32>,
}

/// A reference under FIFO: a hit changes nothing; a miss loads the page into the first
/// empty frame, or, when every frame is in use, into the frame of the page loaded earliest.
pub open spec fn fifo_step(st: FifoState, page: u32) -> FifoState {
    if st.queue.contains(page) {
        st
    } else if st.queue.len() < st.frames.len() {
        FifoState {
            frames: st.frames.update(first_slot(st.frames, None), Some(page)),
            queue: st.queue.push(page),
        }
    } else {
        FifoState {
            frames: st.frames.update(first_slot(st.frames, Some(st.queue[0])), Some(page)),
            queue: st.queue.drop_first().push(page),
        }
    }
}

/// The FIFO state before reference `t`.
pub open spec fn fifo_state(cap: nat, refs: Seq<u32>, t: nat) -> FifoState
    decreases t,
{
    if t == 0 {
        FifoState { frames: empty_frames(cap), queue: Seq::empty() }
    } else {
        fifo_step(fifo_state(cap, refs, (t - 1) as nat), refs[t - 1])
    }
}

/// The outcome of reference `t` under FIFO.
pub open spec fn fifo_report(cap: nat, refs: Seq<u32>, t: nat) -> PageStep {
    let st = fifo_state(cap, refs, t);
    let page = refs[t as int];
    let fault = !st.queue.contains(page);
    PageStep {
        frames: fifo_state(cap, refs, t + 1).frames,
        fault,
        evicted: if fault && st.queue.len() >= st.frames.len() {
            Some(st.queue[0])
        } else {
            None
        },
    }
}

spec fn fifo_wf(st: FifoState, cap: nat) -> bool {
    &&& st.frames.len() == cap
    &&& st.queue.no_duplicates()
    &&& forall|i: int| 0 <= i < cap && #[trigger] st.frames[i] is Some ==> st.queue.contains(st.frames[i]->0)
    &&& forall|i: int, j: int|
        0 <= i < cap && 0 <= j < cap && i != j && #[trigger] st.frames[i] is Some ==> st.frames[i] != #[trigger] st.frames[j]
    &&& forall|k: int| 0 <= k < st.queue.len() ==> exists|i: int| 0 <= i < cap && st.frames[i] == Some(#[trigger] st.queue[k])
    &&& count_set(occupancy(st.frames)) == st.queue.len()
}

proof fn lemma_fifo_step(st: FifoState, cap: nat, page: u32)
    requires
        fifo_wf(st, cap),
        cap > 0,
    ensures
        fifo_wf(fifo_step(st, page), cap),
        !st.queue.contains(page) && st.queue.len() < cap ==> exists|i: int| is_first_slot(st.frames, None, i),
        !st.queue.contains(page) && st.queue.len() >= cap ==> st.queue.len() > 0 && exists|i: int|
            is_first_slot(st.frames, Some(st.queue[0]), i),
{
    let occ = occupancy(st.frames);
    if !st.queue.contains(page) {
        assert forall|i: int| 0 <= i < cap && #[trigger] st.frames[i] is Some implies st.frames[i] != Some(page) by {
            if st.frames[i] == Some(page) {
                assert(st.queue.contains(page));
            }
        }
        if st.queue.len() < cap {
            if forall|i: int| 0 <= i < cap ==> st.frames[i] is Some {
                assert forall|i: int| 0 <= i < occ.len() implies #[trigger] occ[i] by {
                    assert(st.frames[i] is Some);
                }
                lemma_count_all(occ);
            }
            let i0 = choose|i: int| 0 <= i < cap && !(st.frames[i] is Some);
            lemma_least_slot(st.frames, None, i0);
            let s = first_slot(st.frames, None);
            let nf = st.frames.update(s, Some(page));
            let nq = st.queue.push(page);
            lemma_occupancy_update(st.frames, s, Some(page));
            lemma_count_set(occ, s);
            assert forall|k: int| 0 <= k < nq.len() implies exists|i: int| 0 <= i < cap && nf[i] == Some(#[trigger] nq[k]) by {
                if k < st.queue.len() {
                    assert(nq[k] == st.queue[k]);
                    let i = choose|i: int| 0 <= i < cap && st.frames[i] == Some(st.queue[k]);
                    assert(nf[i] == Some(nq[k]));
                } else {
                    assert(nf[s] == Some(nq[k]));
                }
            }
            assert forall|i: int| 0 <= i < cap && #[trigger] nf[i] is Some implies nq.contains(nf[i]->0) by {
                if i == s {
                    assert(nq[nq.len() - 1] == page);
                } else {
                    let k = choose|k: int| 0 <= k < st.queue.len() && st.queue[k] == st.frames[i]->0;
                    assert(nq[k] == st.queue[k]);
                }
            }
            assert(fifo_wf(fifo_step(st, page), cap));
        } else {
            let v = st.queue[0];
            let i0 = choose|i: int| 0 <= i < cap && st.frames[i] == Some(st.queue[0]);
            lemma_least_slot(st.frames, Some(v), i0);
            let s = first_slot(st.frames, Some(v));
            let nf = st.frames.update(s, Some(page));
            let nq = st.queue.drop_first().push(page);
            lemma_occupancy_update(st.frames, s, Some(page));
            assert(occupancy(nf) =~= occ);
            assert forall|k: int| 0 <= k < nq.len() implies exists|i: int| 0 <= i < cap && nf[i] == Some(#[trigger] nq[k]) by {
                if k < nq.len() - 1 {
                    assert(nq[k] == st.queue[k + 1]);
                    let i = choose|i: int| 0 <= i < cap && st.frames[i] == Some(st.queue[k + 1]);
                    assert(st.queue[k + 1] != v);
                    assert(i != s);
                    assert(nf[i] == Some(nq[k]));
                } else {
                    assert(nf[s] == Some(nq[k]));
                }
            }
            assert forall|i: int| 0 <= i < cap && #[trigger] nf[i] is Some implies nq.contains(nf[i]->0) by {
                if i == s {
                    assert(nq[nq.len() - 1] == page);
                } else {
                    let x = st.frames[i]->0;
                    let k = choose|k: int| 0 <= k < st.queue.len() && st.queue[k] == x;
                    assert(st.frames[i] != st.frames[s]);
                    assert(k != 0);
                    assert(nq[k - 1] == x);
                }
            }
            assert(fifo_wf(fifo_step(st, page), cap));
        }
    }
}

/// A slot holding `v` exists, so the first such slot is well defined.
proof fn lemma_least_slot(frames: Seq<Option<u32>>, v: Option<u32>, i0: int)
    requires
        0 <= i0 < frames.len(),
        frames[i0] == v,
    ensures
        is_first_slot(frames, v, first_slot(frames, v)),
        exists|i: int| is_first_slot(frames, v, i),
    decreases i0,
{
    if exists|j: int| 0 <= j < i0 && frames[j] == v {
        let j = choose|j: int| 0 <= j < i0 && frames[j] == v;
        lemma_least_slot(frames, v, j);
    } else {
        assert(is_first_slot(frames, v, i0));
    }
}

fn deque_contains(queue: &VecDeque<u32>, page: u32) -> (r: bool)
    ensures
        r == queue@.contains(page),
{
    let mut i: usize = 0;
    while i < queue.len()
        invariant
            i <= queue@.len(),
            forall|j: int| 0 <= j < i ==> queue@[j] != page,
        decreases queue@.len() - i,
    {
        if queue[i] == page {
            return true;
        }
        i = i + 1;
    }
    false
}

/// FIFO page replacement over `frames` frames.
pub fn fifo(frames: usize, refs: &[u32]) -> (s: PageSummary)
    requires
        frames > 0 || refs@.len() == 0,
    ensures
        s.results@.len() == refs@.len(),
        forall|t: int| 0 <= t < refs@.len() ==> reports(#[trigger] s.results@[t], refs@[t], fifo_report(frames as nat, refs@, t as nat)),
        s.faults == fault_count(s.results@),
        s.faults + s.hits == refs@.len(),
{
    let mut queue: VecDeque<u32> = VecDeque::new();
    let mut frame_set = new_frames(frames);
    let mut results: Vec<PageResult> = Vec::new();
    let mut faults: usize = 0;
    let mut hits: usize = 0;
    proof {
        lemma_count_none(occupancy(frame_set@));
    }
    let mut t: usize = 0;
    while t < refs.len()
        invariant
            frames > 0 || refs@.len() == 0,
            t <= refs@.len(),
            (FifoState { frames: frame_set@, queue: queue@ }) == fifo_state(frames as nat, refs@, t as nat),
            fifo_wf(FifoState { frames: frame_set@, queue: queue@ }, frames as nat),
            results@.len() == t,
            forall|u: int| 0 <= u < t ==> reports(#[trigger] results@[u], refs@[u], fifo_report(frames as nat, refs@, u as nat)),
            faults == fault_count(results@),
            faults + hits == t,
        decreases refs@.len() - t,
    {
        let page = refs[t];
        let ghost st = FifoState { frames: frame_set@, queue: queue@ };
        proof {
            lemma_fifo_step(st, frames as nat, page);
        }
        let in_memory = deque_contains(&queue, page);
        let evicted;
        if in_memory {
            hits = hits + 1;
            evicted = None;
        } else {
            faults = faults + 1;
            if queue.len() < frames {
                let slot = position(&frame_set, None).unwrap();
                proof {
                    lemma_first_slot(st.frames, None, slot as int);
                }
                frame_set.set(slot, Some(page));
                queue.push_back(page);
                evicted = None;
            } else {
                let victim = queue.pop_front().unwrap();
                let slot = position(&frame_set, Some(victim)).unwrap();
                proof {
                    lemma_first_slot(st.frames, Some(victim), slot as int);
                }
                frame_set.set(slot, Some(page));
                queue.push_back(page);
                evicted = Some(victim);
            }
        }
        let r = PageResult { reference: page, frames: snapshot(&frame_set), fault: !in_memory, evicted };
        proof {
            lemma_fault_count_push(results@, r);
            lemma_fault_count_bounds(results@);
            assert((FifoState { frames: frame_set@, queue: queue@ }) == fifo_step(st, page));
        }
        results.push(r);
        t = t + 1;
    }
    PageSummary { results, faults, hits }
}


// ───────────────────────── LRU ─────────────────────────

/// The last position at which `p` occurs in `hist` (0 when it never occurs).
pub open spec fn last_use(hist: Seq<u32>, p: u32) -> int
    decreases hist.len(),
{
    if hist.len() == 0 {
        0
    } else if hist.last() == p {
        hist.len() - 1
    } else {
        last_use(hist.drop_last(), p)
    }
}

/// Slot `i` holds the least recently used page (the first such slot on ties).
pub open spec fn is_lru_victim_slot(frames: Seq<Option<u32>>, hist: Seq<u32>, i: int) -> bool {
    &&& 0 <= i < frames.len()
    &&& frames[i] is Some
    &&& forall|j: int|
        0 <= j < i && #[trigger] frames[j] is Some ==> last_use(hist, frames[j]->0) > last_use(hist, frames[i]->0)
    &&& forall|j: int|
        i < j < frames.len() && #[trigger] frames[j] is Some ==> last_use(hist, frames[j]->0) >= last_use(
            hist,
            frames[i]->0,
        )
}

/// The least recently used resident page, given the references so far.
pub open spec fn lru_victim(frames: Seq<Option<u32>>, hist: Seq<u32>) -> u32 {
    frames[choose|i: int| is_lru_victim_slot(frames, hist, i)]->0
}

/// A reference under LRU: a hit changes nothing; a miss loads the page into the first empty
/// frame, or, when no frame is empty, into the frame of the least recently used page.
pub open spec fn lru_step(frames: Seq<Option<u32>>, hist: Seq<u32>, page: u32) -> Seq<Option<u32>> {
    if frames.contains(Some(page)) {
        frames
    } else if frames.contains(None) {
        frames.update(first_slot(frames, None), Some(page))
    } else {
        frames.update(first_slot(frames, Some(lru_victim(frames, hist))), Some(page))
    }
}

/// The LRU frames before reference `t`.
pub open spec fn lru_frames(cap: nat, refs: Seq<u32>, t: nat) -> Seq<Option<u32>>
    decreases t,
{
    if t == 0 {
        empty_frames(cap)
    } else {
        lru_step(lru_frames(cap, refs, (t - 1) as nat), refs.take(t - 1), refs[t - 1])
    }
}

/// The outcome of reference `t` under LRU.
pub open spec fn lru_report(cap: nat, refs: Seq<u32>, t: nat) -> PageStep {
    let f = lru_frames(cap, refs, t);
    let fault = !f.contains(Some(refs[t as int]));
    PageStep {
        frames: lru_frames(cap, refs, t + 1),
        fault,
        evicted: if fault && !f.contains(None) {
            Some(lru_victim(f, refs.take(t as int)))
        } else {
            None
        },
    }
}

proof fn lemma_lru_victim_unique(frames: Seq<Option<u32>>, hist: Seq<u32>, i: int)
    requires
        is_lru_victim_slot(frames, hist, i),
    ensures
        lru_victim(frames, hist) == frames[i]->0,
{
    let k = choose|k: int| is_lru_victim_slot(frames, hist, k);
    assert(is_lru_victim_slot(frames, hist, k));
    if k < i {
        assert(frames[k] is Some);
    } else if k > i {
        assert(frames[i] is Some);
    }
}

proof fn lemma_last_use_push(hist: Seq<u32>, page: u32, p: u32)
    ensures
        last_use(hist.push(page), p) == if p == page {
            hist.len() as int
        } else {
            last_use(hist, p)
        },
{
    assert(hist.push(page).drop_last() =~= hist);
}

proof fn lemma_last_use_bound(hist: Seq<u32>, p: u32)
    ensures
        0 <= last_use(hist, p) <= hist.len(),
    decreases hist.len(),
{
    if hist.len() > 0 {
        lemma_last_use_bound(hist.drop_last(), p);
    }
}

spec fn tracks_last_use(last_used: Map<u32, usize>, hist: Seq<u32>) -> bool {
    forall|p: u32|
        (#[trigger] last_used.contains_key(p) ==> last_used[p] as int == last_use(hist, p)) && (!last_used.contains_key(
            p,
        ) ==> last_use(hist, p) == 0)
}

/// The least recently used page among full frames.
fn lru_pick(frames: &Vec<Option<u32>>, last_used: &HashMap<u32, usize>, Ghost(hist): Ghost<Seq<u32>>) -> (v: u32)
    requires
        frames@.len() > 0,
        forall|j: int| 0 <= j < frames@.len() ==> #[trigger] frames@[j] is Some,
        tracks_last_use(last_used@, hist),
    ensures
        v == lru_victim(frames@, hist),
        exists|i: int| is_lru_victim_slot(frames@, hist, i) && frames@[i] == Some(v),
{
    let mut best: usize = 0;
    let mut best_key: usize = 0;
    let mut i: usize = 0;
    while i < frames.len()
        invariant
            frames@.len() > 0,
            forall|j: int| 0 <= j < frames@.len() ==> #[trigger] frames@[j] is Some,
            tracks_last_use(last_used@, hist),
            i <= frames@.len(),
            i > 0 ==> best < i && best_key as int == last_use(hist, frames@[best as int]->0),
            i > 0 ==> forall|j: int|
                0 <= j < best && #[trigger] frames@[j] is Some ==> last_use(hist, frames@[j]->0) > best_key,
            i > 0 ==> forall|j: int|
                best < j < i && #[trigger] frames@[j] is Some ==> last_use(hist, frames@[j]->0) >= best_key,
        decreases frames@.len() - i,
    {
        let p = frames[i].unwrap();
        let key = match last_used.get(&p) {
            Some(k) => *k,
            None => 0,
        };
        proof {
            assert(last_used@.contains_key(p) ==> last_used@[p] as int == last_use(hist, p));
        }
        if i == 0 || key < best_key {
            best = i;
            best_key = key;
        }
        i = i + 1;
    }
    proof {
        assert(is_lru_victim_slot(frames@, hist, best as int));
        lemma_lru_victim_unique(frames@, hist, best as int);
    }
    frames[best].unwrap()
}

/// LRU page replacement over `frames` frames.
pub fn lru(frames: usize, refs: &[u32]) -> (s: PageSummary)
    requires
        frames > 0 || refs@.len() == 0,
    ensures
        s.results@.len() == refs@.len(),
        forall|t: int| 0 <= t < refs@.len() ==> reports(#[trigger] s.results@[t], refs@[t], lru_report(frames as nat, refs@, t as nat)),
        s.faults == fault_count(s.results@),
        s.faults == lru_faults(frames as nat, refs@, refs@.len()),
        s.faults + s.hits == refs@.len(),
{
    let mut frame_set = new_frames(frames);
    let mut last_used: HashMap<u32, usize> = HashMap::new();
    let mut results: Vec<PageResult> = Vec::new();
    let mut faults: usize = 0;
    let mut hits: usize = 0;
    let mut t: usize = 0;
    while t < refs.len()
        invariant
            frames > 0 || refs@.len() == 0,
            t <= refs@.len(),
            frame_set@ == lru_frames(frames as nat, refs@, t as nat),
            frame_set@.len() == frames,
            tracks_last_use(last_used@, refs@.take(t as int)),
            results@.len() == t,
            forall|u: int| 0 <= u < t ==> reports(#[trigger] results@[u], refs@[u], lru_report(frames as nat, refs@, u as nat)),
            faults == fault_count(results@),
            faults == lru_faults(frames as nat, refs@, t as nat),
            faults + hits == t,
        decreases refs@.len() - t,
    {
        let page = refs[t];
        let ghost f = frame_set@;
        let ghost hist = refs@.take(t as int);
        let in_memory = position(&frame_set, Some(page)).is_some();
        proof {
            if in_memory {
                let i = choose|i: int| is_first_slot(f, Some(page), i);
                assert(f[i] == Some(page));
            }
        }
        let evicted;
        if in_memory {
            hits = hits + 1;
            evicted = None;
        } else {
            faults = faults + 1;
            match position(&frame_set, None) {
                Some(slot) => {
                    proof {
                        lemma_first_slot(f, None, slot as int);
                        assert(f[slot as int] == None::<u32>);
                    }
                    frame_set.set(slot, Some(page));
                    evicted = None;
                },
                None => {
                    let victim = lru_pick(&frame_set, &last_used, Ghost(hist));
                    proof {
                        let i = choose|i: int| is_lru_victim_slot(f, hist, i) && f[i] == Some(victim);
                        lemma_least_slot(f, Some(victim), i);
                    }
                    let slot = position(&frame_set, Some(victim)).unwrap();
                    proof {
                        lemma_first_slot(f, Some(victim), slot as int);
                    }
                    frame_set.set(slot, Some(page));
                    evicted = Some(victim);
                },
            }
        }
        last_used.insert(page, t);
        proof {
            assert(refs@.take(t + 1) =~= hist.push(page));
            assert forall|p: u32|
                (#[trigger] last_used@.contains_key(p) ==> last_used@[p] as int == last_use(refs@.take(t + 1), p))
                    && (!last_used@.contains_key(p) ==> last_use(refs@.take(t + 1), p) == 0) by {
                lemma_last_use_push(hist, page, p);
            }
        }
        let r = PageResult { reference: page, frames: snapshot(&frame_set), fault: !in_memory, evicted };
        proof {
            lemma_fault_count_push(results@, r);
            lemma_fault_count_bounds(results@);
            assert(frame_set@ == lru_step(f, hist, page));
        }
        results.push(r);
        t = t + 1;
    }
    PageSummary { results, faults, hits }
}


// ───────────────────────── Optimal ─────────────────────────

/// `j` is the first position of `p` in `future`.
pub open spec fn is_next_use(future: Seq<u32>, p: u32, j: int) -> bool {
    &&& 0 <= j < future.len()
    &&& future[j] == p
    &&& forall|k: int| 0 <= k < j ==> future[k] != p
}

/// How far ahead `p` is referenced next (`usize::MAX` when it never is again).
pub open spec fn next_use(future: Seq<u32>, p: u32) -> int {
    if exists|j: int| is_next_use(future, p, j) {
        choose|j: int| is_next_use(future, p, j)
    } else {
        usize::MAX as int
    }
}

/// Slot `i` holds the page referenced furthest in the future (the last such slot on ties).
pub open spec fn is_opt_victim_slot(frames: Seq<Option<u32>>, future: Seq<u32>, i: int) -> bool {
    &&& 0 <= i < frames.len()
    &&& frames[i] is Some
    &&& forall|j: int|
        0 <= j < i && #[trigger] frames[j] is Some ==> next_use(future, frames[j]->0) <= next_use(future, frames[i]->0)
    &&& forall|j: int|
        i < j < frames.len() && #[trigger] frames[j] is Some ==> next_use(future, frames[j]->0) < next_use(
            future,
            frames[i]->0,
        )
}

/// The resident page referenced furthest in the future.
pub open spec fn opt_victim(frames: Seq<Option<u32>>, future: Seq<u32>) -> u32 {
    frames[choose|i: int| is_opt_victim_slot(frames, future, i)]->0
}

/// A reference under the optimal policy: a hit changes nothing; a miss loads the page into
/// the first empty frame, or, when no frame is empty, into the frame of the page whose next
/// reference is furthest away.
pub open spec fn opt_step(frames: Seq<Option<u32>>, future: Seq<u32>, page: u32) -> Seq<Option<u32>> {
    if frames.contains(Some(page)) {
        frames
    } else if frames.contains(None) {
        frames.update(first_slot(frames, None), Some(page))
    } else {
        frames.update(first_slot(frames, Some(opt_victim(frames, future))), Some(page))
    }
}

/// The frames under the optimal policy before reference `t`.
pub open spec fn opt_frames(cap: nat, refs: Seq<u32>, t: nat) -> Seq<Option<u32>>
    decreases t,
{
    if t == 0 {
        empty_frames(cap)
    } else {
        opt_step(opt_frames(cap, refs, (t - 1) as nat), refs.skip(t as int), refs[t - 1])
    }
}

/// The outcome of reference `t` under the optimal policy.
pub open spec fn opt_report(cap: nat, refs: Seq<u32>, t: nat) -> PageStep {
    let f = opt_frames(cap, refs, t);
    let fault = !f.contains(Some(refs[t as int]));
    PageStep {
        frames: opt_frames(cap, refs, t + 1),
        fault,
        evicted: if fault && !f.contains(None) {
            Some(opt_victim(f, refs.skip(t + 1 as int)))
        } else {
            None
        },
    }
}

proof fn lemma_opt_victim_unique(frames: Seq<Option<u32>>, future: Seq<u32>, i: int)
    requires
        is_opt_victim_slot(frames, future, i),
    ensures
        opt_victim(frames, future) == frames[i]->0,
{
    let k = choose|k: int| is_opt_victim_slot(frames, future, k);
    assert(is_opt_victim_slot(frames, future, k));
    if k < i {
        assert(frames[k] is Some);
    } else if k > i {
        assert(frames[i] is Some);
    }
}

/// Distance to the next reference of `p` after position `t`.
fn next_use_after(refs: &[u32], t: usize, p: u32) -> (d: usize)
    requires
        t < refs@.len(),
    ensures
        d as int == next_use(refs@.skip(t + 1), p),
{
    let ghost future = refs@.skip(t + 1);
    let n = refs.len();
    let mut k: usize = t + 1;
    while k < refs.len()
        invariant
            t < k <= refs@.len(),
            future == refs@.skip(t + 1),
            forall|j: int| 0 <= j < k - t - 1 ==> future[j] != p,
        decreases refs@.len() - k,
    {
        if refs[k] == p {
            let d = k - t - 1;
            proof {
                assert(is_next_use(future, p, d as int));
                let c = choose|j: int| is_next_use(future, p, j);
                if c < d {
                    assert(future[c] != p);
                } else if c > d {
                    assert(future[d as int] != p);
                }
            }
            return d;
        }
        k = k + 1;
    }
    proof {
        if exists|j: int| is_next_use(future, p, j) {
            let c = choose|j: int| is_next_use(future, p, j);
            assert(future[c] == p);
        }
    }
    usize::MAX
}

/// The resident page whose next reference after position `t` is furthest away.
fn opt_pick(frames: &Vec<Option<u32>>, refs: &[u32], t: usize) -> (v: u32)
    requires
        frames@.len() > 0,
        t < refs@.len(),
        forall|j: int| 0 <= j < frames@.len() ==> #[trigger] frames@[j] is Some,
    ensures
        v == opt_victim(frames@, refs@.skip(t + 1)),
        exists|i: int| is_opt_victim_slot(frames@, refs@.skip(t + 1), i) && frames@[i] == Some(v),
{
    let ghost future = refs@.skip(t + 1);
    let mut best: usize = 0;
    let mut best_key: usize = 0;
    let mut i: usize = 0;
    while i < frames.len()
        invariant
            frames@.len() > 0,
            t < refs@.len(),
            future == refs@.skip(t + 1),
            forall|j: int| 0 <= j < frames@.len() ==> #[trigger] frames@[j] is Some,
            i <= frames@.len(),
            i > 0 ==> best < i && best_key as int == next_use(future, frames@[best as int]->0),
            i > 0 ==> forall|j: int|
                0 <= j < best && #[trigger] frames@[j] is Some ==> next_use(future, frames@[j]->0) <= best_key,
            i > 0 ==> forall|j: int|
                best < j < i && #[trigger] frames@[j] is Some ==> next_use(future, frames@[j]->0) < best_key,
        decreases frames@.len() - i,
    {
        let p = frames[i].unwrap();
        let key = next_use_after(refs, t, p);
        if i == 0 || key >= best_key {
            best = i;
            best_key = key;
        }
        i = i + 1;
    }
    proof {
        assert(is_opt_victim_slot(frames@, future, best as int));
        lemma_opt_victim_unique(frames@, future, best as int);
    }
    frames[best].unwrap()
}

/// Optimal (Belady) page replacement over `frames` frames.
pub fn optimal(frames: usize, refs: &[u32]) -> (s: PageSummary)
    requires
        frames > 0 || refs@.len() == 0,
    ensures
        s.results@.len() == refs@.len(),
        forall|t: int| 0 <= t < refs@.len() ==> reports(#[trigger] s.results@[t], refs@[t], opt_report(frames as nat, refs@, t as nat)),
        s.faults == fault_count(s.results@),
        s.faults + s.hits == refs@.len(),
{
    let mut frame_set = new_frames(frames);
    let mut results: Vec<PageResult> = Vec::new();
    let mut faults: usize = 0;
    let mut hits: usize = 0;
    let mut t: usize = 0;
    while t < refs.len()
        invariant
            frames > 0 || refs@.len() == 0,
            t <= refs@.len(),
            frame_set@ == opt_frames(frames as nat, refs@, t as nat),
            frame_set@.len() == frames,
            results@.len() == t,
            forall|u: int| 0 <= u < t ==> reports(#[trigger] results@[u], refs@[u], opt_report(frames as nat, refs@, u as nat)),
            faults == fault_count(results@),
            faults + hits == t,
        decreases refs@.len() - t,
    {
        let page = refs[t];
        let ghost f = frame_set@;
        let ghost future = refs@.skip(t + 1);
        let in_memory = position(&frame_set, Some(page)).is_some();
        proof {
            if in_memory {
                let i = choose|i: int| is_first_slot(f, Some(page), i);
                assert(f[i] == Some(page));
            }
        }
        let evicted;
        if in_memory {
            hits = hits + 1;
            evicted = None;
        } else {
            faults = faults + 1;
            match position(&frame_set, None) {
                Some(slot) => {
                    proof {
                        lemma_first_slot(f, None, slot as int);
                        assert(f[slot as int] == None::<u32>);
                    }
                    frame_set.set(slot, Some(page));
                    evicted = None;
                },
                None => {
                    let victim = opt_pick(&frame_set, refs, t);
                    proof {
                        let i = choose|i: int| is_opt_victim_slot(f, future, i) && f[i] == Some(victim);
                        lemma_least_slot(f, Some(victim), i);
                    }
                    let slot = position(&frame_set, Some(victim)).unwrap();
                    proof {
                        lemma_first_slot(f, Some(victim), slot as int);
                    }
                    frame_set.set(slot, Some(page));
                    evicted = Some(victim);
                },
            }
        }
        let r = PageResult { reference: page, frames: snapshot(&frame_set), fault: !in_memory, evicted };
        proof {
            lemma_fault_count_push(results@, r);
            lemma_fault_count_bounds(results@);
            assert(frame_set@ == opt_step(f, future, page));
        }
        results.push(r);
        t = t + 1;
    }
    PageSummary { results, faults, hits }
}

// ───────────────────────── laws ─────────────────────────

/// No page sits in two frames.
pub open spec fn pages_distinct(frames: Seq<Option<u32>>) -> bool {
    forall|i: int, j: int| 0 <= i < j < frames.len() && #[trigger] frames[i] is Some ==> frames[i] != #[trigger] frames[j]
}

/// Loading a page that is not resident into one frame keeps the pages distinct.
proof fn lemma_load_keeps_distinct(frames: Seq<Option<u32>>, slot: int, page: u32)
    requires
        pages_distinct(frames),
        !frames.contains(Some(page)),
        0 <= slot < frames.len(),
    ensures
        pages_distinct(frames.update(slot, Some(page))),
        frames.update(slot, Some(page)).contains(Some(page)),
        frames.update(slot, Some(page)).len() == frames.len(),
{
    let nf = frames.update(slot, Some(page));
    assert(nf[slot] == Some(page));
    assert forall|i: int, j: int| 0 <= i < j < nf.len() && #[trigger] nf[i] is Some implies nf[i] != #[trigger] nf[j] by {
        if i == slot {
            assert(frames[j] != Some(page));
        } else if j == slot {
            assert(frames[i] != Some(page));
        } else {
            assert(frames[i] != frames[j]);
        }
    }
}

proof fn lemma_fifo_state_wf(cap: nat, refs: Seq<u32>, t: nat)
    requires
        cap > 0,
        t <= refs.len(),
    ensures
        fifo_wf(fifo_state(cap, refs, t), cap),
    decreases t,
{
    if t == 0 {
        lemma_count_none(occupancy(empty_frames(cap)));
    } else {
        lemma_fifo_state_wf(cap, refs, (t - 1) as nat);
        lemma_fifo_step(fifo_state(cap, refs, (t - 1) as nat), cap, refs[t - 1]);
    }
}

/// Under FIFO, after every reference the frames hold each page at most once and hold the
/// page just referenced.
pub proof fn law_fifo_frames(cap: nat, refs: Seq<u32>, t: nat)
    requires
        cap > 0,
        t < refs.len(),
    ensures
        fifo_state(cap, refs, t + 1).frames.len() == cap,
        pages_distinct(fifo_state(cap, refs, t + 1).frames),
        fifo_state(cap, refs, t + 1).frames.contains(Some(refs[t as int])),
{
    lemma_fifo_state_wf(cap, refs, t);
    lemma_fifo_state_wf(cap, refs, t + 1);
    let st = fifo_state(cap, refs, t);
    let page = refs[t as int];
    lemma_fifo_step(st, cap, page);
    let nst = fifo_state(cap, refs, t + 1);
    assert(nst == fifo_step(st, page));
    assert(nst.queue.contains(page)) by {
        if !st.queue.contains(page) {
            assert(nst.queue[nst.queue.len() - 1] == page);
        }
    }
    let k = choose|k: int| 0 <= k < nst.queue.len() && nst.queue[k] == page;
    let i = choose|i: int| 0 <= i < cap && nst.frames[i] == Some(#[trigger] nst.queue[k]);
    assert(nst.frames[i] == Some(page));
}

/// Some slot holds the least recently used page of full frames.
proof fn lemma_lru_victim_exists(frames: Seq<Option<u32>>, hist: Seq<u32>, m: int) -> (i: int)
    requires
        0 < m <= frames.len(),
        forall|j: int| 0 <= j < frames.len() ==> #[trigger] frames[j] is Some,
    ensures
        0 <= i < m,
        forall|j: int| 0 <= j < i ==> last_use(hist, #[trigger] frames[j]->0) > last_use(hist, frames[i]->0),
        forall|j: int| i < j < m ==> last_use(hist, #[trigger] frames[j]->0) >= last_use(hist, frames[i]->0),
        m == frames.len() ==> is_lru_victim_slot(frames, hist, i),
    decreases m,
{
    if m == 1 {
        0
    } else {
        let b = lemma_lru_victim_exists(frames, hist, m - 1);
        if last_use(hist, frames[m - 1]->0) < last_use(hist, frames[b]->0) {
            m - 1
        } else {
            b
        }
    }
}

/// Some slot holds the resident page referenced furthest ahead (the last such slot).
proof fn lemma_opt_victim_exists(frames: Seq<Option<u32>>, future: Seq<u32>, m: int) -> (i: int)
    requires
        0 < m <= frames.len(),
        forall|j: int| 0 <= j < frames.len() ==> #[trigger] frames[j] is Some,
    ensures
        0 <= i < m,
        forall|j: int| 0 <= j < i ==> next_use(future, #[trigger] frames[j]->0) <= next_use(future, frames[i]->0),
        forall|j: int| i < j < m ==> next_use(future, #[trigger] frames[j]->0) < next_use(future, frames[i]->0),
        m == frames.len() ==> is_opt_victim_slot(frames, future, i),
    decreases m,
{
    if m == 1 {
        0
    } else {
        let b = lemma_opt_victim_exists(frames, future, m - 1);
        if next_use(future, frames[m - 1]->0) >= next_use(future, frames[b]->0) {
            m - 1
        } else {
            b
        }
    }
}

/// The slot that a miss fills exists: the first empty one, or the first holding `victim`
/// when `victim` is resident.
proof fn lemma_fill_slot(frames: Seq<Option<u32>>, page: u32, victim: Option<u32>) -> (slot: int)
    requires
        frames.contains(victim),
    ensures
        0 <= slot < frames.len(),
        slot == first_slot(frames, victim),
{
    let i0 = choose|i: int| 0 <= i < frames.len() && frames[i] == victim;
    lemma_least_slot(frames, victim, i0);
    first_slot(frames, victim)
}

/// Under LRU, after every reference the frames hold each page at most once and hold the
/// page just referenced.
pub proof fn law_lru_frames(cap: nat, refs: Seq<u32>, t: nat)
    requires
        cap > 0,
        t < refs.len(),
    ensures
        lru_frames(cap, refs, t + 1).len() == cap,
        pages_distinct(lru_frames(cap, refs, t + 1)),
        lru_frames(cap, refs, t + 1).contains(Some(refs[t as int])),
    decreases t,
{
    let f = lru_frames(cap, refs, t);
    let page = refs[t as int];
    let hist = refs.take(t as int);
    if t == 0 {
        assert(pages_distinct(f));
        assert(f.len() == cap);
    } else {
        law_lru_frames(cap, refs, (t - 1) as nat);
    }
    assert(lru_frames(cap, refs, t + 1) == lru_step(f, hist, page));
    if !f.contains(Some(page)) {
        if f.contains(None) {
            let slot = lemma_fill_slot(f, page, None);
            lemma_load_keeps_distinct(f, slot, page);
        } else {
            assert forall|j: int| 0 <= j < f.len() implies #[trigger] f[j] is Some by {
                if f[j] is None {
                    assert(f.contains(None));
                }
            }
            let i = lemma_lru_victim_exists(f, hist, f.len() as int);
            lemma_lru_victim_unique(f, hist, i);
            let v = lru_victim(f, hist);
            assert(f[i] == Some(v));
            let slot = lemma_fill_slot(f, page, Some(v));
            lemma_load_keeps_distinct(f, slot, page);
        }
    }
}

/// Under the optimal policy, after every reference the frames hold each page at most once
/// and hold the page just referenced.
pub proof fn law_optimal_frames(cap: nat, refs: Seq<u32>, t: nat)
    requires
        cap > 0,
        t < refs.len(),
    ensures
        opt_frames(cap, refs, t + 1).len() == cap,
        pages_distinct(opt_frames(cap, refs, t + 1)),
        opt_frames(cap, refs, t + 1).contains(Some(refs[t as int])),
    decreases t,
{
    let f = opt_frames(cap, refs, t);
    let page = refs[t as int];
    let future = refs.skip((t + 1) as int);
    if t == 0 {
        assert(pages_distinct(f));
        assert(f.len() == cap);
    } else {
        law_optimal_frames(cap, refs, (t - 1) as nat);
    }
    assert(opt_frames(cap, refs, t + 1) == opt_step(f, future, page));
    if !f.contains(Some(page)) {
        if f.contains(None) {
            let slot = lemma_fill_slot(f, page, None);
            lemma_load_keeps_distinct(f, slot, page);
        } else {
            assert forall|j: int| 0 <= j < f.len() implies #[trigger] f[j] is Some by {
                if f[j] is None {
                    assert(f.contains(None));
                }
            }
            let i = lemma_opt_victim_exists(f, future, f.len() as int);
            lemma_opt_victim_unique(f, future, i);
            let v = opt_victim(f, future);
            assert(f[i] == Some(v));
            let slot = lemma_fill_slot(f, page, Some(v));
            lemma_load_keeps_distinct(f, slot, page);
        }
    }
}


// ───────────────────────── LRU with one frame more ─────────────────────────

/// Every page that `small` holds, `big` holds too.
pub open spec fn holds_all(big: Seq<Option<u32>>, small: Seq<Option<u32>>) -> bool {
    forall|p: u32| #[trigger] small.contains(Some(p)) ==> big.contains(Some(p))
}

/// The pages that `big` holds beyond those of `small` were last used before every page of `small`.
spec fn extras_older(big: Seq<Option<u32>>, small: Seq<Option<u32>>, hist: Seq<u32>) -> bool {
    forall|e: u32, p: u32|
        #![trigger big.contains(Some(e)), small.contains(Some(p))]
        big.contains(Some(e)) && !small.contains(Some(e)) && small.contains(Some(p)) ==> last_use(hist, e)
            < last_use(hist, p)
}

/// Every resident page has been referenced.
spec fn resident_used(f: Seq<Option<u32>>, hist: Seq<u32>) -> bool {
    forall|p: u32| #[trigger] f.contains(Some(p)) ==> hist.contains(p)
}

/// How LRU frames of `c` and of `c + 1` frames stand to each other after the references `hist`.
spec fn stack_inv(small: Seq<Option<u32>>, big: Seq<Option<u32>>, hist: Seq<u32>, c: nat) -> bool {
    &&& small.len() == c
    &&& big.len() == c + 1
    &&& pages_distinct(small)
    &&& pages_distinct(big)
    &&& resident_used(small, hist)
    &&& resident_used(big, hist)
    &&& big.contains(None) ==> big == small.push(None)
    &&& !big.contains(None) ==> !small.contains(None)
    &&& holds_all(big, small)
    &&& extras_older(big, small, hist)
}

proof fn lemma_last_use_at(hist: Seq<u32>, p: u32)
    requires
        hist.contains(p),
    ensures
        0 <= last_use(hist, p) < hist.len(),
        hist[last_use(hist, p)] == p,
    decreases hist.len(),
{
    if hist.last() != p {
        let h = hist.drop_last();
        let j = choose|j: int| 0 <= j < hist.len() && hist[j] == p;
        assert(j < hist.len() - 1);
        assert(h[j] == p);
        lemma_last_use_at(h, p);
        assert(hist[last_use(h, p)] == h[last_use(h, p)]);
    }
}

/// The least recently used page of full frames is resident, and was used before every
/// other resident page.
proof fn lemma_victim_oldest(f: Seq<Option<u32>>, hist: Seq<u32>)
    requires
        f.len() > 0,
        !f.contains(None),
        pages_distinct(f),
        resident_used(f, hist),
    ensures
        f.contains(Some(lru_victim(f, hist))),
        forall|p: u32|
            #[trigger] f.contains(Some(p)) && p != lru_victim(f, hist) ==> last_use(hist, lru_victim(f, hist))
                < last_use(hist, p),
{
    assert forall|j: int| 0 <= j < f.len() implies #[trigger] f[j] is Some by {
        if f[j] is None {
            assert(f[j] == None::<u32>);
            assert(f.contains(None));
        }
    }
    let i = lemma_lru_victim_exists(f, hist, f.len() as int);
    lemma_lru_victim_unique(f, hist, i);
    let v = f[i]->0;
    assert(f[i] == Some(v));
    assert(f.contains(Some(v)));
    assert forall|p: u32| #[trigger] f.contains(Some(p)) && p != v implies last_use(hist, v) < last_use(hist, p) by {
        let j = choose|j: int| 0 <= j < f.len() && f[j] == Some(p);
        assert(j != i);
        assert(f[j] is Some);
        if j > i {
            assert(last_use(hist, p) >= last_use(hist, v));
            if last_use(hist, p) == last_use(hist, v) {
                lemma_last_use_at(hist, p);
                lemma_last_use_at(hist, v);
            }
        } else {
            assert(last_use(hist, p) > last_use(hist, v));
        }
    }
}

/// The pages held after loading `x` into `slot`.
proof fn lemma_update_contents(f: Seq<Option<u32>>, slot: int, x: u32)
    requires
        0 <= slot < f.len(),
        pages_distinct(f),
    ensures
        forall|p: u32|
            #[trigger] f.update(slot, Some(x)).contains(Some(p)) <==> (p == x || (f.contains(Some(p)) && f[slot]
                != Some(p))),
        !f.contains(None) ==> !f.update(slot, Some(x)).contains(None),
{
    let g = f.update(slot, Some(x));
    assert forall|p: u32|
        #[trigger] g.contains(Some(p)) <==> (p == x || (f.contains(Some(p)) && f[slot] != Some(p))) by {
        if g.contains(Some(p)) && p != x {
            let j = choose|j: int| 0 <= j < g.len() && g[j] == Some(p);
            assert(j != slot);
            assert(f[j] == Some(p));
            if f[slot] == Some(p) {
                if j < slot {
                    assert(f[j] != f[slot]);
                } else {
                    assert(f[slot] != f[j]);
                }
            }
        }
        if p == x {
            assert(g[slot] == Some(x));
        } else if f.contains(Some(p)) && f[slot] != Some(p) {
            let j = choose|j: int| 0 <= j < f.len() && f[j] == Some(p);
            assert(g[j] == Some(p));
        }
    }
    if !f.contains(None) && g.contains(None) {
        let j = choose|j: int| 0 <= j < g.len() && g[j] == None::<u32>;
        assert(f[j] == None::<u32>);
    }
}

/// The slot that a miss on full frames fills holds the victim.
proof fn lemma_victim_slot(f: Seq<Option<u32>>, v: u32)
    requires
        f.contains(Some(v)),
    ensures
        0 <= first_slot(f, Some(v)) < f.len(),
        f[first_slot(f, Some(v))] == Some(v),
{
    let i0 = choose|i: int| 0 <= i < f.len() && f[i] == Some(v);
    lemma_least_slot(f, Some(v), i0);
}

/// One reference keeps the relation between LRU with `c` and with `c + 1` frames.
#[verifier::rlimit(40)]
#[verifier::spinoff_prover]
proof fn lemma_stack_step(small: Seq<Option<u32>>, big: Seq<Option<u32>>, hist: Seq<u32>, x: u32, c: nat)
    requires
        c > 0,
        stack_inv(small, big, hist, c),
    ensures
        stack_inv(lru_step(small, hist, x), lru_step(big, hist, x), hist.push(x), c),
{
    let h2 = hist.push(x);
    let s2 = lru_step(small, hist, x);
    let b2 = lru_step(big, hist, x);
    assert forall|p: u32| #[trigger] last_use(h2, p) == if p == x {
        hist.len() as int
    } else {
        last_use(hist, p)
    } by {
        lemma_last_use_push(hist, x, p);
    }
    assert forall|p: u32| #[trigger] hist.contains(p) implies h2.contains(p) && last_use(hist, p) < hist.len() by {
        let j = choose|j: int| 0 <= j < hist.len() && hist[j] == p;
        assert(h2[j] == p);
        lemma_last_use_at(hist, p);
    }
    assert(h2[hist.len() as int] == x);
    assert(h2.contains(x));
    if big.contains(None) {
        assert(big == small.push(None));
        assert forall|p: u32| #[trigger] big.contains(Some(p)) implies small.contains(Some(p)) by {
            let j = choose|j: int| 0 <= j < big.len() && big[j] == Some(p);
            assert(j < c);
            assert(small[j] == Some(p));
        }
        if small.contains(Some(x)) {
            assert(s2 == small);
            assert(b2 == big);
        } else if small.contains(None) {
            assert(!big.contains(Some(x)));
            let i = first_slot(small, None);
            let i0 = choose|j: int| 0 <= j < small.len() && small[j] == None::<u32>;
            lemma_least_slot(small, None, i0);
            assert(is_first_slot(big, None, i)) by {
                assert forall|j: int| 0 <= j < i implies big[j] != None::<u32> by {
                    assert(big[j] == small[j]);
                }
            }
            lemma_first_slot(big, None, i);
            assert(s2 == small.update(i, Some(x)));
            assert(b2 == big.update(i, Some(x)));
            assert(b2 =~= s2.push(None));
            assert(b2[c as int] == None::<u32>);
            lemma_load_keeps_distinct(small, i, x);
            lemma_load_keeps_distinct(big, i, x);
            lemma_update_contents(small, i, x);
            lemma_update_contents(big, i, x);
            assert forall|p: u32| #[trigger] b2.contains(Some(p)) implies s2.contains(Some(p)) by {
                let j = choose|j: int| 0 <= j < b2.len() && b2[j] == Some(p);
                assert(j < c);
                assert(s2[j] == Some(p));
            }
        } else {
            assert(!big.contains(Some(x)));
            assert(is_first_slot(big, None, c as int)) by {
                assert(big[c as int] == None::<u32>);
                assert forall|j: int| 0 <= j < c implies big[j] != None::<u32> by {
                    assert(big[j] == small[j]);
                    if small[j] == None::<u32> {
                        assert(small.contains(None));
                    }
                }
            }
            lemma_first_slot(big, None, c as int);
            assert(b2 == big.update(c as int, Some(x)));
            assert(b2 =~= small.push(Some(x)));
            lemma_victim_oldest(small, hist);
            let v = lru_victim(small, hist);
            lemma_victim_slot(small, v);
            let sv = first_slot(small, Some(v));
            assert(s2 == small.update(sv, Some(x)));
            lemma_load_keeps_distinct(small, sv, x);
            lemma_load_keeps_distinct(big, c as int, x);
            lemma_update_contents(small, sv, x);
            lemma_update_contents(big, c as int, x);
            assert(!big.update(c as int, Some(x)).contains(None)) by {
                if b2.contains(None) {
                    let j = choose|j: int| 0 <= j < b2.len() && b2[j] == None::<u32>;
                    assert(j < c);
                    assert(small[j] == None::<u32>);
                    assert(small.contains(None));
                }
            }
            assert(hist.contains(v));
            assert forall|e: u32, p: u32|
                #![trigger b2.contains(Some(e)), s2.contains(Some(p))]
                b2.contains(Some(e)) && !s2.contains(Some(e)) && s2.contains(Some(p)) implies last_use(h2, e)
                < last_use(h2, p) by {
                assert(e != x);
                assert(big.contains(Some(e)));
                assert(small.contains(Some(e)));
                assert(e == v);
                if p != x {
                    assert(small.contains(Some(p)) && p != v);
                }
            }
        }
    } else {
        assert(!small.contains(None));
        if small.contains(Some(x)) {
            assert(big.contains(Some(x)));
            assert(s2 == small);
            assert(b2 == big);
            assert forall|e: u32, p: u32|
                #![trigger b2.contains(Some(e)), s2.contains(Some(p))]
                b2.contains(Some(e)) && !s2.contains(Some(e)) && s2.contains(Some(p)) implies last_use(h2, e)
                < last_use(h2, p) by {
                assert(e != x);
                assert(hist.contains(e));
                if p != x {
                    assert(last_use(hist, e) < last_use(hist, p));
                }
            }
        } else {
            lemma_victim_oldest(small, hist);
            let v = lru_victim(small, hist);
            lemma_victim_slot(small, v);
            let sv = first_slot(small, Some(v));
            assert(s2 == small.update(sv, Some(x)));
            lemma_load_keeps_distinct(small, sv, x);
            lemma_update_contents(small, sv, x);
            assert(hist.contains(v));
            if big.contains(Some(x)) {
                assert(b2 == big);
                assert forall|e: u32, p: u32|
                    #![trigger b2.contains(Some(e)), s2.contains(Some(p))]
                    b2.contains(Some(e)) && !s2.contains(Some(e)) && s2.contains(Some(p)) implies last_use(h2, e)
                    < last_use(h2, p) by {
                    assert(e != x);
                    assert(hist.contains(e));
                    if p != x {
                        assert(small.contains(Some(p)) && p != v);
                        if e != v {
                            assert(!small.contains(Some(e)));
                            assert(last_use(hist, e) < last_use(hist, p));
                        }
                    }
                }
            } else {
                lemma_victim_oldest(big, hist);
                let w = lru_victim(big, hist);
                lemma_victim_slot(big, w);
                let bw = first_slot(big, Some(w));
                assert(b2 == big.update(bw, Some(x)));
                lemma_load_keeps_distinct(big, bw, x);
                lemma_update_contents(big, bw, x);
                assert(w == v || !small.contains(Some(w))) by {
                    if small.contains(Some(w)) && w != v {
                        assert(big.contains(Some(v)));
                        assert(last_use(hist, w) < last_use(hist, v));
                        assert(last_use(hist, v) < last_use(hist, w));
                    }
                }
                assert(!small.contains(Some(w)) ==> w != v);
                assert forall|p: u32| #[trigger] s2.contains(Some(p)) implies b2.contains(Some(p)) by {
                    if p != x {
                        assert(small.contains(Some(p)) && p != v);
                        assert(big.contains(Some(p)));
                    }
                }
                assert forall|e: u32, p: u32|
                    #![trigger b2.contains(Some(e)), s2.contains(Some(p))]
                    b2.contains(Some(e)) && !s2.contains(Some(e)) && s2.contains(Some(p)) implies last_use(h2, e)
                    < last_use(h2, p) by {
                    assert(e != x);
                    assert(big.contains(Some(e)));
                    assert(hist.contains(e));
                    if p != x {
                        assert(small.contains(Some(p)) && p != v);
                        if e != v {
                            assert(!small.contains(Some(e)));
                            assert(last_use(hist, e) < last_use(hist, p));
                        }
                    }
                }
            }
        }
    }
}

proof fn lemma_lru_stack(c: nat, refs: Seq<u32>, t: nat)
    requires
        c > 0,
        t <= refs.len(),
    ensures
        stack_inv(lru_frames(c, refs, t), lru_frames(c + 1, refs, t), refs.take(t as int), c),
    decreases t,
{
    if t == 0 {
        let s = lru_frames(c, refs, 0);
        let b = lru_frames(c + 1, refs, 0);
        assert(b =~= s.push(None));
        assert(b[0] == None::<u32>);
        assert forall|p: u32| !(#[trigger] s.contains(Some(p))) by {
            if s.contains(Some(p)) {
                let j = choose|j: int| 0 <= j < s.len() && s[j] == Some(p);
            }
        }
        assert forall|p: u32| !(#[trigger] b.contains(Some(p))) by {
            if b.contains(Some(p)) {
                let j = choose|j: int| 0 <= j < b.len() && b[j] == Some(p);
            }
        }
    } else {
        lemma_lru_stack(c, refs, (t - 1) as nat);
        assert(refs.take(t - 1).push(refs[t - 1]) =~= refs.take(t as int));
        lemma_stack_step(
            lru_frames(c, refs, (t - 1) as nat),
            lru_frames(c + 1, refs, (t - 1) as nat),
            refs.take(t - 1),
            refs[t - 1],
            c,
        );
    }
}

/// Under LRU, one frame more holds every page that the fewer frames hold, before every
/// reference; so a reference that faults with one frame more faults with the fewer frames
/// too (LRU is a stack algorithm).
pub proof fn law_lru_inclusion(c: nat, refs: Seq<u32>, t: nat)
    requires
        c > 0,
        t < refs.len(),
    ensures
        holds_all(lru_frames(c + 1, refs, t), lru_frames(c, refs, t)),
        lru_report(c + 1, refs, t).fault ==> lru_report(c, refs, t).fault,
{
    lemma_lru_stack(c, refs, t);
}

/// The number of faults of LRU with `cap` frames over the first `n` references.
pub open spec fn lru_faults(cap: nat, refs: Seq<u32>, n: nat) -> nat
    decreases n,
{
    if n == 0 {
        0
    } else {
        lru_faults(cap, refs, (n - 1) as nat) + if lru_report(cap, refs, (n - 1) as nat).fault {
            1nat
        } else {
            0
        }
    }
}

/// With one frame more, LRU faults no more often over any stretch of references from the start.
pub proof fn law_lru_more_frames_no_more_faults(c: nat, refs: Seq<u32>, n: nat)
    requires
        c > 0,
        n <= refs.len(),
    ensures
        lru_faults(c + 1, refs, n) <= lru_faults(c, refs, n),
    decreases n,
{
    if n > 0 {
        law_lru_more_frames_no_more_faults(c, refs, (n - 1) as nat);
        law_lru_inclusion(c, refs, (n - 1) as nat);
    }
}


// ───────────────────────── next reference ─────────────────────────

/// The distance to the next reference of `p` is the first position of `p` in `future`, or
/// `usize::MAX` when `p` does not occur in it.
pub proof fn law_next_use(future: Seq<u32>, p: u32)
    requires
        future.len() <= usize::MAX,
    ensures
        future.contains(p) ==> {
            &&& 0 <= next_use(future, p) < future.len()
            &&& future[next_use(future, p)] == p
            &&& forall|k: int| 0 <= k < next_use(future, p) ==> future[k] != p
        },
        !future.contains(p) ==> next_use(future, p) == usize::MAX,
        forall|j: int|
            0 <= j < future.len() && #[trigger] future[j] == p && (forall|k: int| 0 <= k < j ==> future[k] != p)
                ==> next_use(future, p) == j,
{
    if future.contains(p) {
        let j0 = choose|j: int| 0 <= j < future.len() && future[j] == p;
        lemma_first_occurrence(future, p, j0);
        let c = choose|j: int| is_next_use(future, p, j);
        assert(is_next_use(future, p, c));
    } else {
        if exists|j: int| is_next_use(future, p, j) {
            let c = choose|j: int| is_next_use(future, p, j);
            assert(future[c] == p);
        }
    }
    assert forall|j: int|
        0 <= j < future.len() && #[trigger] future[j] == p && (forall|k: int| 0 <= k < j ==> future[k] != p)
            implies next_use(future, p) == j by {
        assert(is_next_use(future, p, j));
        let c = choose|i: int| is_next_use(future, p, i);
        if c < j {
            assert(future[c] != p);
        } else if c > j {
            assert(future[j] != p);
        }
    }
}

proof fn lemma_first_occurrence(future: Seq<u32>, p: u32, j0: int)
    requires
        0 <= j0 < future.len(),
        future[j0] == p,
    ensures
        exists|j: int| is_next_use(future, p, j),
    decreases j0,
{
    if exists|k: int| 0 <= k < j0 && future[k] == p {
        let k = choose|k: int| 0 <= k < j0 && future[k] == p;
        lemma_first_occurrence(future, p, k);
    } else {
        assert(is_next_use(future, p, j0));
    }
}

/// On full frames the optimal policy evicts a page that is referenced again no sooner than
/// any other resident page: when the victim is referenced again at position `j` (its first),
/// every other resident page is referenced before `j`; and when some resident page is never
/// referenced again, neither is the victim.
pub proof fn law_opt_victim_furthest(frames: Seq<Option<u32>>, future: Seq<u32>)
    requires
        frames.len() > 0,
        !frames.contains(None),
        future.len() <= usize::MAX,
    ensures
        frames.contains(Some(opt_victim(frames, future))),
        forall|q: u32, j: int|
            #![trigger frames.contains(Some(q)), future[j]]
            frames.contains(Some(q)) && q != opt_victim(frames, future) && 0 <= j < future.len() && future[j]
                == opt_victim(frames, future) && (forall|k: int| 0 <= k < j ==> future[k] != opt_victim(frames, future))
                ==> exists|i: int| 0 <= i < j && future[i] == q,
        forall|q: u32|
            #[trigger] frames.contains(Some(q)) && !future.contains(q) ==> !future.contains(opt_victim(frames, future)),
{
    assert forall|j: int| 0 <= j < frames.len() implies #[trigger] frames[j] is Some by {
        if frames[j] is None {
            assert(frames[j] == None::<u32>);
            assert(frames.contains(None));
        }
    }
    let i = lemma_opt_victim_exists(frames, future, frames.len() as int);
    lemma_opt_victim_unique(frames, future, i);
    let v = opt_victim(frames, future);
    assert(frames[i] == Some(v));
    assert(frames.contains(Some(v)));
    law_next_use(future, v);
    assert forall|q: u32| #[trigger] frames.contains(Some(q)) && q != v implies next_use(future, q) <= next_use(
        future,
        v,
    ) by {
        let m = choose|m: int| 0 <= m < frames.len() && frames[m] == Some(q);
        assert(frames[m] is Some);
        assert(m != i);
    }
    assert forall|q: u32, j: int|
        #![trigger frames.contains(Some(q)), future[j]]
        frames.contains(Some(q)) && q != v && 0 <= j < future.len() && future[j] == v && (forall|k: int|
            0 <= k < j ==> future[k] != v) implies exists|i: int| 0 <= i < j && future[i] == q by {
        law_next_use(future, q);
        assert(next_use(future, v) == j);
        assert(next_use(future, q) <= j);
        if !future.contains(q) {
            assert(next_use(future, q) == usize::MAX);
        }
        let d = next_use(future, q);
        assert(future[d] == q);
        assert(d != j);
    }
    assert forall|q: u32| #[trigger] frames.contains(Some(q)) && !future.contains(q) implies !future.contains(v) by {
        law_next_use(future, q);
        if q != v {
            assert(next_use(future, q) <= next_use(future, v));
        }
    }
}


/// The last use of a referenced page is the last position at which it occurs.
pub proof fn law_last_use(hist: Seq<u32>, p: u32)
    ensures
        hist.contains(p) ==> {
            &&& 0 <= last_use(hist, p) < hist.len()
            &&& hist[last_use(hist, p)] == p
            &&& forall|k: int| last_use(hist, p) < k < hist.len() ==> hist[k] != p
        },
    decreases hist.len(),
{
    if hist.contains(p) {
        lemma_last_use_at(hist, p);
        if hist.last() != p {
            let h = hist.drop_last();
            let j = choose|j: int| 0 <= j < hist.len() && hist[j] == p;
            assert(h[j] == p);
            law_last_use(h, p);
            assert forall|k: int| last_use(hist, p) < k < hist.len() implies hist[k] != p by {
                if k < hist.len() - 1 {
                    assert(hist[k] == h[k]);
                }
            }
        }
    }
}

/// On full frames whose pages have all been referenced, LRU evicts a resident page whose
/// last use came before the last use of every other resident page.
pub proof fn law_lru_victim_oldest(frames: Seq<Option<u32>>, hist: Seq<u32>)
    requires
        frames.len() > 0,
        !frames.contains(None),
        pages_distinct(frames),
        forall|p: u32| #[trigger] frames.contains(Some(p)) ==> hist.contains(p),
    ensures
        frames.contains(Some(lru_victim(frames, hist))),
        forall|p: u32|
            #[trigger] frames.contains(Some(p)) && p != lru_victim(frames, hist) ==> last_use(hist, lru_victim(frames, hist))
                < last_use(hist, p),
{
    lemma_victim_oldest(frames, hist);
}

} // verus!
