use vstd::prelude::*;
use crate::deadlock::{DeadlockManager, amount_of, sat_sub, amount_in, has_entry, entry_index};
use crate::report::amount_for;
use crate::sums::{total_nat, masked_total_nat, lemma_masked_nat_bound, lemma_masked_nat_none, lemma_masked_nat_set};

verus! {

/// Instances of device `d` held by `pid`.
pub open spec fn alloc_at(m: DeadlockManager, pid: u32, d: int) -> nat {
    amount_of(m.allocation@, pid, m.devices@[d].name@)
}

/// Instances of device `d` that `pid` may still ask for: its declared maximum less what it holds.
pub open spec fn need_at(m: DeadlockManager, pid: u32, d: int) -> nat {
    sat_sub(amount_of(m.max_need@, pid, m.devices@[d].name@), alloc_at(m, pid, d))
}

/// With `work` free, `pid` can obtain everything it may still need.
pub open spec fn can_finish(m: DeadlockManager, work: Seq<int>, pid: u32) -> bool {
    forall|d: int| 0 <= d < m.devices@.len() ==> need_at(m, pid, d) <= #[trigger] work[d]
}

/// `work` after `pid` finishes and gives back what it holds.
pub open spec fn give_back(m: DeadlockManager, work: Seq<int>, pid: u32) -> Seq<int> {
    Seq::new(work.len(), |d: int| work[d] + alloc_at(m, pid, d))
}

/// The safety check's state: free instances per device, and the processes finished so far.
pub ghost struct BankState {
    pub work: Seq<int>,
    pub done: Seq<u32>,
}

/// One pass over the registered processes from position `i`: each unfinished process that
/// can finish does so at once, giving back what it holds. The flag says whether any did.
pub open spec fn bank_pass(m: DeadlockManager, st: BankState, i: int) -> (BankState, bool)
    decreases m.processes@.len() - i,
{
    if i < 0 || i >= m.processes@.len() {
        (st, false)
    } else {
        let pid = m.processes@[i];
        if st.done.contains(pid) {
            bank_pass(m, st, i + 1)
        } else if can_finish(m, st.work, pid) {
            let st2 = BankState { work: give_back(m, st.work, pid), done: st.done.push(pid) };
            (bank_pass(m, st2, i + 1).0, true)
        } else {
            bank_pass(m, st, i + 1)
        }
    }
}

/// Passes repeat until one finishes nobody (`fuel` bounds the number of passes).
pub open spec fn bank_loop(m: DeadlockManager, st: BankState, fuel: int) -> BankState
    decreases fuel,
{
    if fuel <= 0 {
        st
    } else {
        let (st2, found) = bank_pass(m, st, 0);
        if found {
            bank_loop(m, st2, fuel - 1)
        } else {
            st2
        }
    }
}

pub open spec fn initial_work(m: DeadlockManager) -> Seq<int> {
    Seq::new(m.devices@.len(), |d: int| m.devices@[d].device.available as int)
}

/// The order in which the safety check lets processes finish.
pub open spec fn safe_sequence(m: DeadlockManager) -> Seq<u32> {
    bank_loop(m, BankState { work: initial_work(m), done: Seq::empty() }, m.processes@.len() + 1 as int).done
}

/// The registered processes that never get to finish, each once, in order of registration.
pub open spec fn unfinished_of(ps: Seq<u32>, done: Seq<u32>) -> Seq<u32>
    decreases ps.len(),
{
    if ps.len() == 0 {
        Seq::empty()
    } else {
        let r = unfinished_of(ps.drop_last(), done);
        if done.contains(ps.last()) || r.contains(ps.last()) {
            r
        } else {
            r.push(ps.last())
        }
    }
}

/// Instances of device `d` held by each registered process, in order.
pub open spec fn allocs_of(m: DeadlockManager, d: int) -> Seq<nat> {
    Seq::new(m.processes@.len(), |i: int| alloc_at(m, m.processes@[i], d))
}

/// The outcome of the safety check.
pub struct BankersReport {
    /// Every registered process can finish.
    pub safe: bool,
    /// The order in which processes finish.
    pub safe_sequence: Vec<u32>,
    /// The registered processes that cannot finish.
    pub unfinished: Vec<u32>,
}


pub open spec fn work_view(work: Seq<u128>) -> Seq<int> {
    work.map_values(|x: u128| x as int)
}

/// The invariant of the exec safety check: `work` is what is available plus what the
/// processes finished so far (at the positions in `mask`) gave back.
spec fn bank_inv(m: DeadlockManager, work: Seq<u128>, done: Seq<u32>, mask: Seq<bool>) -> bool {
    &&& work.len() == m.devices@.len()
    &&& mask.len() == m.processes@.len()
    &&& forall|d: int|
        0 <= d < m.devices@.len() ==> #[trigger] work[d] == m.devices@[d].device.available + masked_total_nat(
            allocs_of(m, d),
            mask,
        )
    &&& forall|d: int|
        0 <= d < m.devices@.len() ==> #[trigger] m.devices@[d].device.available + total_nat(allocs_of(m, d))
            <= u128::MAX
    &&& forall|i: int| 0 <= i < mask.len() && #[trigger] mask[i] ==> done.contains(m.processes@[i])
    &&& done.no_duplicates()
    &&& forall|j: int| 0 <= j < done.len() ==> m.processes@.contains(#[trigger] done[j])
}

fn contains_pid(v: &Vec<u32>, x: u32) -> (r: bool)
    ensures
        r == v@.contains(x),
{
    let mut i: usize = 0;
    while i < v.len()
        invariant
            i <= v@.len(),
            forall|j: int| 0 <= j < i ==> v@[j] != x,
        decreases v@.len() - i,
    {
        if v[i] == x {
            return true;
        }
        i = i + 1;
    }
    false
}

impl DeadlockManager {
    /// Instances of the device at position `d` held by `pid`.
    fn alloc_for(&self, pid: u32, d: usize) -> (a: usize)
        requires
            d < self.devices@.len(),
        ensures
            a == alloc_at(*self, pid, d as int),
    {
        amount_in(&self.allocation, pid, &self.devices[d].name)
    }

    /// Instances of the device at position `d` that `pid` may still ask for.
    fn need_for(&self, pid: u32, d: usize) -> (n: usize)
        requires
            d < self.devices@.len(),
        ensures
            n == need_at(*self, pid, d as int),
    {
        let max = amount_in(&self.max_need, pid, &self.devices[d].name);
        let held = self.alloc_for(pid, d);
        if max >= held {
            max - held
        } else {
            0
        }
    }

    fn can_finish_exec(&self, work: &Vec<u128>, pid: u32) -> (r: bool)
        requires
            work@.len() == self.devices@.len(),
        ensures
            r == can_finish(*self, work_view(work@), pid),
    {
        let mut d: usize = 0;
        while d < self.devices.len()
            invariant
                work@.len() == self.devices@.len(),
                d <= self.devices@.len(),
                forall|e: int| 0 <= e < d ==> need_at(*self, pid, e) <= #[trigger] work_view(work@)[e],
            decreases self.devices@.len() - d,
        {
            if self.need_for(pid, d) as u128 > work[d] {
                proof {
                    assert(work_view(work@)[d as int] == work@[d as int] as int);
                }
                return false;
            }
            d = d + 1;
        }
        true
    }

    /// One pass of the safety check.
    fn bank_pass_exec(&self, work: &mut Vec<u128>, done: &mut Vec<u32>, Ghost(mask): Ghost<Seq<bool>>) -> (r: (
        bool,
        Ghost<Seq<bool>>,
    ))
        requires
            bank_inv(*self, old(work)@, old(done)@, mask),
        ensures
            bank_inv(*self, final(work)@, final(done)@, r.1@),
            bank_pass(*self, BankState { work: work_view(old(work)@), done: old(done)@ }, 0) == (
            BankState { work: work_view(final(work)@), done: final(done)@ },
            r.0,
            ),
            r.0 ==> final(done)@.len() > old(done)@.len(),
            !r.0 ==> final(done)@ == old(done)@,
    {
        let ghost m = *self;
        let ghost st0 = BankState { work: work_view(work@), done: done@ };
        let ghost mut mask = mask;
        let mut found = false;
        let mut i: usize = 0;
        while i < self.processes.len()
            invariant
                m == *self,
                i <= m.processes@.len(),
                bank_inv(m, work@, done@, mask),
                bank_pass(m, st0, 0).0 == bank_pass(m, BankState { work: work_view(work@), done: done@ }, i as int).0,
                bank_pass(m, st0, 0).1 == (found || bank_pass(
                    m,
                    BankState { work: work_view(work@), done: done@ },
                    i as int,
                ).1),
                found ==> done@.len() > st0.done.len(),
                !found ==> done@ == st0.done,
            decreases m.processes@.len() - i,
        {
            let pid = self.processes[i];
            if contains_pid(done, pid) {
            } else if self.can_finish_exec(work, pid) {
                let ghost w0 = work@;
                proof {
                    if mask[i as int] {
                        assert(done@.contains(m.processes@[i as int]));
                    }
                }
                let mut d: usize = 0;
                while d < self.devices.len()
                    invariant
                        m == *self,
                        i < m.processes@.len(),
                        pid == m.processes@[i as int],
                        !mask[i as int],
                        mask.len() == m.processes@.len(),
                        w0.len() == m.devices@.len(),
                        work@.len() == m.devices@.len(),
                        d <= m.devices@.len(),
                        forall|e: int|
                            0 <= e < m.devices@.len() ==> #[trigger] w0[e] == m.devices@[e].device.available
                                + masked_total_nat(allocs_of(m, e), mask),
                        forall|e: int|
                            0 <= e < m.devices@.len() ==> #[trigger] m.devices@[e].device.available + total_nat(
                                allocs_of(m, e),
                            ) <= u128::MAX,
                        forall|e: int| 0 <= e < d ==> #[trigger] work@[e] == w0[e] + alloc_at(m, pid, e),
                        forall|e: int| d <= e < m.devices@.len() ==> #[trigger] work@[e] == w0[e],
                    decreases m.devices@.len() - d,
                {
                    let a = self.alloc_for(pid, d);
                    proof {
                        lemma_masked_nat_set(allocs_of(m, d as int), mask, i as int);
                        lemma_masked_nat_bound(allocs_of(m, d as int), mask.update(i as int, true));
                        assert(allocs_of(m, d as int)[i as int] == alloc_at(m, pid, d as int));
                    }
                    let v = work[d] + a as u128;
                    work.set(d, v);
                    d = d + 1;
                }
                let ghost old_done = done@;
                done.push(pid);
                proof {
                    let nm = mask.update(i as int, true);
                    assert forall|e: int|
                        0 <= e < m.devices@.len() implies #[trigger] work@[e] == m.devices@[e].device.available
                        + masked_total_nat(allocs_of(m, e), nm) by {
                        lemma_masked_nat_set(allocs_of(m, e), mask, i as int);
                        assert(allocs_of(m, e)[i as int] == alloc_at(m, pid, e));
                    }
                    assert forall|k: int| 0 <= k < nm.len() && #[trigger] nm[k] implies done@.contains(
                        m.processes@[k],
                    ) by {
                        if k == i {
                            assert(done@[done@.len() - 1] == pid);
                        } else {
                            let w = choose|w: int| 0 <= w < old_done.len() && old_done[w] == m.processes@[k];
                            assert(done@[w] == old_done[w]);
                        }
                    }
                    assert forall|j: int| 0 <= j < done@.len() implies m.processes@.contains(#[trigger] done@[j]) by {
                        if j == old_done.len() {
                            assert(m.processes@[i as int] == done@[j]);
                        } else {
                            assert(done@[j] == old_done[j]);
                        }
                    }
                    assert(work_view(work@) =~= give_back(m, work_view(w0), pid));
                    mask = nm;
                }
                found = true;
            }
            i = i + 1;
        }
        (found, Ghost(mask))
    }
}


proof fn lemma_done_len(ps: Seq<u32>, done: Seq<u32>)
    requires
        done.no_duplicates(),
        forall|j: int| 0 <= j < done.len() ==> ps.contains(#[trigger] done[j]),
    ensures
        done.len() <= ps.len(),
{
    done.unique_seq_to_set();
    ps.lemma_cardinality_of_set();
    vstd::seq_lib::seq_to_set_is_finite(ps);
    assert forall|x: u32| done.to_set().contains(x) implies ps.to_set().contains(x) by {
        let j = choose|j: int| 0 <= j < done.len() && done[j] == x;
        assert(ps.contains(done[j]));
    }
    vstd::set_lib::lemma_len_subset(done.to_set(), ps.to_set());
}

proof fn lemma_total_nat_bound(vals: Seq<nat>, bound: nat)
    requires
        forall|i: int| 0 <= i < vals.len() ==> #[trigger] vals[i] <= bound,
    ensures
        total_nat(vals) <= vals.len() * bound,
    decreases vals.len(),
{
    if vals.len() > 0 {
        lemma_total_nat_bound(vals.drop_last(), bound);
        assert((vals.len() - 1) * bound + bound == vals.len() * bound) by (nonlinear_arith);
    }
}

/// What all the registered processes hold of one device, plus what is free, fits in `u128`.
proof fn lemma_allocs_bound(m: DeadlockManager, d: int)
    requires
        0 <= d < m.devices@.len(),
    ensures
        m.devices@[d].device.available + total_nat(allocs_of(m, d)) <= u128::MAX,
{
    let vals = allocs_of(m, d);
    assert forall|i: int| 0 <= i < vals.len() implies #[trigger] vals[i] <= usize::MAX by {
        let name = m.devices@[d].name@;
        let pid = m.processes@[i];
        if has_entry(m.allocation@, pid, name) {
            let k = entry_index(m.allocation@, pid, name);
            assert(m.allocation@[k].amount <= usize::MAX);
        }
    }
    lemma_total_nat_bound(vals, usize::MAX as nat);
    let n = vals.len();
    assert(m.processes@.len() == m.processes.len());
    assert(n <= usize::MAX);
    assert(n * (usize::MAX as nat) <= (usize::MAX as nat) * (usize::MAX as nat)) by (nonlinear_arith)
        requires
            n <= usize::MAX,
    ;
    assert((usize::MAX as nat) * (usize::MAX as nat) + usize::MAX <= u128::MAX) by (nonlinear_arith)
        requires
            usize::MAX <= 0xffff_ffff_ffff_ffff,
    ;
}

impl DeadlockManager {
    /// Banker's safety check: starting from the free instances, repeatedly let every
    /// registered process whose remaining need fits finish and give back what it holds,
    /// until a pass finishes nobody. The state is safe when every process finishes.
    pub fn bankers_algorithm(&self) -> (r: BankersReport)
        ensures
            r.safe_sequence@ == safe_sequence(*self),
            r.unfinished@ == unfinished_of(self.processes@, safe_sequence(*self)),
            r.safe == forall|i: int|
                0 <= i < self.processes@.len() ==> safe_sequence(*self).contains(#[trigger] self.processes@[i]),
    {
        let ghost m = *self;
        let n = self.processes.len();
        let mut work: Vec<u128> = Vec::new();
        let mut d: usize = 0;
        while d < self.devices.len()
            invariant
                d <= self.devices@.len(),
                work@.len() == d,
                forall|e: int| 0 <= e < d ==> #[trigger] work@[e] == self.devices@[e].device.available,
            decreases self.devices@.len() - d,
        {
            work.push(self.devices[d].device.available as u128);
            d = d + 1;
        }
        let mut done: Vec<u32> = Vec::new();
        let ghost mut mask: Seq<bool> = Seq::new(n as nat, |i: int| false);
        proof {
            assert forall|e: int|
                0 <= e < m.devices@.len() implies #[trigger] work@[e] == m.devices@[e].device.available + masked_total_nat(
                allocs_of(m, e),
                mask,
            ) by {
                lemma_masked_nat_none(allocs_of(m, e), mask);
            }
            assert(work_view(work@) =~= initial_work(m));
            assert forall|e: int| 0 <= e < m.devices@.len() implies #[trigger] m.devices@[e].device.available + total_nat(
                allocs_of(m, e),
            ) <= u128::MAX by {
                lemma_allocs_bound(m, e);
            }
        }
        let ghost init = BankState { work: work_view(work@), done: done@ };
        let ghost target = bank_loop(m, init, n + 1);
        let ghost mut fuel: int = n + 1;
        let mut progress = true;
        while progress
            invariant
                m == *self,
                n == m.processes@.len(),
                bank_inv(m, work@, done@, mask),
                init == (BankState { work: initial_work(m), done: Seq::empty() }),
                target == bank_loop(m, init, n + 1),
                progress ==> bank_loop(m, BankState { work: work_view(work@), done: done@ }, fuel) == target,
                progress ==> fuel >= n - done@.len() + 1,
                !progress ==> done@ == target.done,
                done@.len() <= n,
            decreases n - done@.len() + if progress {
                1int
            } else {
                0
            },
        {
            let ghost cur = BankState { work: work_view(work@), done: done@ };
            let (found, Ghost(mask2)) = self.bank_pass_exec(&mut work, &mut done, Ghost(mask));
            proof {
                mask = mask2;
                lemma_done_len(m.processes@, done@);
            }
            if found {
                proof {
                    fuel = fuel - 1;
                }
            } else {
                progress = false;
            }
        }
        let sequence = done;
        let ghost target = target.done;
        let mut unfinished: Vec<u32> = Vec::new();
        let mut all = true;
        let mut i: usize = 0;
        while i < n
            invariant
                m == *self,
                n == m.processes@.len(),
                sequence@ == target,
                target == safe_sequence(m),
                i <= n,
                unfinished@ == unfinished_of(m.processes@.take(i as int), target),
                all == forall|j: int| 0 <= j < i ==> target.contains(#[trigger] m.processes@[j]),
            decreases n - i,
        {
            let pid = self.processes[i];
            proof {
                assert(m.processes@.take(i + 1).drop_last() =~= m.processes@.take(i as int));
            }
            if contains_pid(&sequence, pid) {
            } else {
                all = false;
                if !contains_pid(&unfinished, pid) {
                    unfinished.push(pid);
                }
            }
            i = i + 1;
        }
        proof {
            assert(m.processes@.take(n as int) =~= m.processes@);
        }
        BankersReport { safe: all, safe_sequence: sequence, unfinished }
    }

    /// Instances of `device` held by `pid`.
    pub fn allocation_of(&self, pid: u32, device: &str) -> (a: usize)
        ensures
            a == amount_of(self.allocation@, pid, device@),
    {
        amount_in(&self.allocation, pid, &device.to_owned())
    }

    /// Instances of `device` that `pid` may still ask for: its declared maximum less what it holds.
    pub fn need_of(&self, pid: u32, device: &str) -> (n: usize)
        ensures
            n == sat_sub(amount_of(self.max_need@, pid, device@), amount_of(self.allocation@, pid, device@)),
    {
        let key = device.to_owned();
        let max = amount_in(&self.max_need, pid, &key);
        let held = amount_in(&self.allocation, pid, &key);
        if max >= held {
            max - held
        } else {
            0
        }
    }
}

// ───────────────────────── per-process maps ─────────────────────────

/// Looking a device name up in such a list gives the amount `f` gives it.
proof fn lemma_lists_devices_lookup(map: Seq<(String, usize)>, f: spec_fn(Seq<char>) -> nat, key: Seq<char>)
    requires
        forall|j: int| 0 <= j < map.len() ==> (#[trigger] map[j]).1 == f(map[j].0@),
        exists|j: int| 0 <= j < map.len() && (#[trigger] map[j]).0@ == key,
    ensures
        amount_for(map, key) == f(key),
    decreases map.len(),
{
    if map[0].0@ != key {
        let j = choose|j: int| 0 <= j < map.len() && (#[trigger] map[j]).0@ == key;
        assert(map.drop_first()[j - 1] == map[j]);
        assert forall|i: int| 0 <= i < map.drop_first().len() implies (#[trigger] map.drop_first()[i]).1 == f(
            map.drop_first()[i].0@,
        ) by {
            assert(map.drop_first()[i] == map[i + 1]);
        }
        lemma_lists_devices_lookup(map.drop_first(), f, key);
    }
}

impl DeadlockManager {
    /// The devices that `pid` holds, with the amounts: `None` for a process that is neither
    /// registered nor listed in the allocation table, else every device with what `pid`
    /// holds of it (0 where nothing).
    pub fn allocation_map(&self, pid: u32) -> (r: Option<Vec<(String, usize)>>)
        ensures
            r is None <==> !self.processes@.contains(pid) && !exists|k: int|
                0 <= k < self.allocation@.len() && (#[trigger] self.allocation@[k]).pid == pid,
            r matches Some(map) ==> {
                &&& map@.len() == self.devices@.len()
                &&& forall|d: int|
                    0 <= d < self.devices@.len() ==> (#[trigger] map@[d]).0@ == self.devices@[d].name@ && map@[d].1
                        == alloc_at(*self, pid, d)
                &&& forall|d: int|
                    0 <= d < self.devices@.len() ==> amount_for(map@, #[trigger] self.devices@[d].name@) == alloc_at(
                        *self,
                        pid,
                        d,
                    )
            },
    {
        let mut any = false;
        let mut k: usize = 0;
        while k < self.allocation.len()
            invariant
                k <= self.allocation@.len(),
                any == exists|j: int| 0 <= j < k && (#[trigger] self.allocation@[j]).pid == pid,
            decreases self.allocation@.len() - k,
        {
            if self.allocation[k].pid == pid {
                any = true;
            }
            k = k + 1;
        }
        if !any && !contains_pid(&self.processes, pid) {
            return None;
        }
        let ghost f = |name: Seq<char>| amount_of(self.allocation@, pid, name);
        let mut map: Vec<(String, usize)> = Vec::new();
        let mut d: usize = 0;
        while d < self.devices.len()
            invariant
                f == (|name: Seq<char>| amount_of(self.allocation@, pid, name)),
                d <= self.devices@.len(),
                map@.len() == d,
                forall|j: int| 0 <= j < d ==> (#[trigger] map@[j]).0@ == self.devices@[j].name@,
                forall|j: int| 0 <= j < d ==> (#[trigger] map@[j]).1 == f(map@[j].0@),
            decreases self.devices@.len() - d,
        {
            let name = self.devices[d].name.clone();
            let a = amount_in(&self.allocation, pid, &name);
            let ghost before = map@;
            map.push((name, a));
            proof {
                assert(map@[d as int].1 == f(map@[d as int].0@));
                assert forall|j: int| 0 <= j < d + 1 implies (#[trigger] map@[j]).1 == f(map@[j].0@) by {
                    if j < d {
                        assert(map@[j] == before[j]);
                    }
                }
            }
            d = d + 1;
        }
        proof {
            assert forall|e: int| 0 <= e < self.devices@.len() implies amount_for(map@, #[trigger] self.devices@[e].name@)
                == alloc_at(*self, pid, e) by {
                assert(map@[e].0@ == self.devices@[e].name@);
                lemma_lists_devices_lookup(map@, f, self.devices@[e].name@);
            }
        }
        Some(map)
    }

    /// Every device with what `pid` may still ask for of it.
    pub fn need_map(&self, pid: u32) -> (map: Vec<(String, usize)>)
        ensures
            map@.len() == self.devices@.len(),
            forall|d: int|
                0 <= d < self.devices@.len() ==> (#[trigger] map@[d]).0@ == self.devices@[d].name@ && map@[d].1 == need_at(
                    *self,
                    pid,
                    d,
                ),
            forall|d: int|
                0 <= d < self.devices@.len() ==> amount_for(map@, #[trigger] self.devices@[d].name@) == need_at(*self, pid, d),
    {
        let ghost f = |name: Seq<char>| sat_sub(amount_of(self.max_need@, pid, name), amount_of(self.allocation@, pid, name));
        let mut map: Vec<(String, usize)> = Vec::new();
        let mut d: usize = 0;
        while d < self.devices.len()
            invariant
                f == (|name: Seq<char>| sat_sub(amount_of(self.max_need@, pid, name), amount_of(self.allocation@, pid, name))),
                d <= self.devices@.len(),
                map@.len() == d,
                forall|j: int| 0 <= j < d ==> (#[trigger] map@[j]).0@ == self.devices@[j].name@,
                forall|j: int| 0 <= j < d ==> (#[trigger] map@[j]).1 == f(map@[j].0@),
            decreases self.devices@.len() - d,
        {
            let name = self.devices[d].name.clone();
            let n = self.need_of(pid, name.as_str());
            let ghost before = map@;
            map.push((name, n));
            proof {
                assert(map@[d as int].1 == f(map@[d as int].0@));
                assert forall|j: int| 0 <= j < d + 1 implies (#[trigger] map@[j]).1 == f(map@[j].0@) by {
                    if j < d {
                        assert(map@[j] == before[j]);
                    }
                }
            }
            d = d + 1;
        }
        proof {
            assert forall|e: int| 0 <= e < self.devices@.len() implies amount_for(map@, #[trigger] self.devices@[e].name@)
                == need_at(*self, pid, e) by {
                assert(map@[e].0@ == self.devices@[e].name@);
                lemma_lists_devices_lookup(map@, f, self.devices@[e].name@);
            }
        }
        map
    }
}

// ───────────────────────── laws ─────────────────────────

/// What is free after the processes of `done` finish in turn, each giving back what it holds.
pub open spec fn replay_work(m: DeadlockManager, done: Seq<u32>) -> Seq<int>
    decreases done.len(),
{
    if done.len() == 0 {
        initial_work(m)
    } else {
        give_back(m, replay_work(m, done.drop_last()), done.last())
    }
}

/// Letting the processes of `done` finish in turn works: each, at its turn, can obtain all
/// it may still need from what is free then; and none is listed twice.
pub open spec fn replay_ok(m: DeadlockManager, done: Seq<u32>) -> bool {
    &&& done.no_duplicates()
    &&& forall|k: int| 0 <= k < done.len() ==> can_finish(m, replay_work(m, done.take(k)), #[trigger] done[k])
}

proof fn lemma_replay_push(m: DeadlockManager, done: Seq<u32>, pid: u32)
    requires
        replay_ok(m, done),
        !done.contains(pid),
        can_finish(m, replay_work(m, done), pid),
    ensures
        replay_ok(m, done.push(pid)),
        replay_work(m, done.push(pid)) == give_back(m, replay_work(m, done), pid),
{
    let nd = done.push(pid);
    assert(nd.drop_last() =~= done);
    assert forall|k: int| 0 <= k < nd.len() implies can_finish(m, replay_work(m, nd.take(k)), #[trigger] nd[k]) by {
        if k < done.len() {
            assert(nd.take(k) =~= done.take(k));
            assert(nd[k] == done[k]);
        } else {
            assert(nd.take(k) =~= done);
        }
    }
}

proof fn lemma_bank_pass_replays(m: DeadlockManager, st: BankState, i: int)
    requires
        st.work == replay_work(m, st.done),
        replay_ok(m, st.done),
    ensures
        bank_pass(m, st, i).0.work == replay_work(m, bank_pass(m, st, i).0.done),
        replay_ok(m, bank_pass(m, st, i).0.done),
    decreases m.processes@.len() - i,
{
    if 0 <= i < m.processes@.len() {
        let pid = m.processes@[i];
        if st.done.contains(pid) {
            lemma_bank_pass_replays(m, st, i + 1);
        } else if can_finish(m, st.work, pid) {
            lemma_replay_push(m, st.done, pid);
            let st2 = BankState { work: give_back(m, st.work, pid), done: st.done.push(pid) };
            lemma_bank_pass_replays(m, st2, i + 1);
        } else {
            lemma_bank_pass_replays(m, st, i + 1);
        }
    }
}

proof fn lemma_bank_loop_replays(m: DeadlockManager, st: BankState, fuel: int)
    requires
        st.work == replay_work(m, st.done),
        replay_ok(m, st.done),
    ensures
        replay_ok(m, bank_loop(m, st, fuel).done),
    decreases fuel,
{
    if fuel > 0 {
        lemma_bank_pass_replays(m, st, 0);
        let (st2, found) = bank_pass(m, st, 0);
        if found {
            lemma_bank_loop_replays(m, st2, fuel - 1);
        }
    }
}

/// The safe sequence is a real one: letting its processes finish in that order, each at
/// its turn can obtain everything it may still need from the instances free then (those
/// available plus those given back by the processes before it); none is listed twice.
pub proof fn law_safe_sequence_sound(m: DeadlockManager)
    ensures
        replay_ok(m, safe_sequence(m)),
{
    let st = BankState { work: initial_work(m), done: Seq::empty() };
    lemma_bank_loop_replays(m, st, m.processes@.len() + 1 as int);
}

/// What the processes of `ps` hold of device `d`, added up.
pub open spec fn held_sum(m: DeadlockManager, ps: Seq<u32>, d: int) -> int
    decreases ps.len(),
{
    if ps.len() == 0 {
        0
    } else {
        held_sum(m, ps.drop_last(), d) + alloc_at(m, ps.last(), d)
    }
}

proof fn lemma_replay_work_sum(m: DeadlockManager, done: Seq<u32>)
    ensures
        replay_work(m, done).len() == m.devices@.len(),
        forall|d: int|
            0 <= d < m.devices@.len() ==> #[trigger] replay_work(m, done)[d] == initial_work(m)[d] + held_sum(m, done, d),
    decreases done.len(),
{
    if done.len() > 0 {
        lemma_replay_work_sum(m, done.drop_last());
    }
}

proof fn lemma_held_sum_nonneg(m: DeadlockManager, ps: Seq<u32>, d: int)
    ensures
        held_sum(m, ps, d) >= 0,
    decreases ps.len(),
{
    if ps.len() > 0 {
        lemma_held_sum_nonneg(m, ps.drop_last(), d);
    }
}

proof fn lemma_held_sum_remove(m: DeadlockManager, ps: Seq<u32>, i: int, d: int)
    requires
        0 <= i < ps.len(),
    ensures
        held_sum(m, ps, d) == held_sum(m, ps.remove(i), d) + alloc_at(m, ps[i], d),
    decreases ps.len(),
{
    if i == ps.len() - 1 {
        assert(ps.remove(i) =~= ps.drop_last());
    } else {
        lemma_held_sum_remove(m, ps.drop_last(), i, d);
        assert(ps.remove(i).drop_last() =~= ps.drop_last().remove(i));
        assert(ps.remove(i).last() == ps.last());
    }
}

/// Distinct processes that all appear among distinct others hold no more in total.
proof fn lemma_held_sum_subset(m: DeadlockManager, a: Seq<u32>, b: Seq<u32>, d: int)
    requires
        a.no_duplicates(),
        b.no_duplicates(),
        forall|k: int| 0 <= k < a.len() ==> b.contains(#[trigger] a[k]),
    ensures
        held_sum(m, a, d) <= held_sum(m, b, d),
    decreases a.len(),
{
    if a.len() == 0 {
        lemma_held_sum_nonneg(m, b, d);
    } else {
        let x = a.last();
        assert(b.contains(a[a.len() - 1]));
        let i = choose|i: int| 0 <= i < b.len() && b[i] == x;
        let b2 = b.remove(i);
        let a2 = a.drop_last();
        assert forall|k: int| 0 <= k < a2.len() implies b2.contains(#[trigger] a2[k]) by {
            assert(a2[k] == a[k]);
            assert(b.contains(a[k]));
            let j = choose|j: int| 0 <= j < b.len() && b[j] == a[k];
            assert(a[k] != x);
            assert(j != i);
            if j < i {
                assert(b2[j] == b[j]);
            } else {
                assert(b2[j - 1] == b[j]);
            }
        }
        assert forall|p: int, q: int| 0 <= p < b2.len() && 0 <= q < b2.len() && p != q implies b2[p] != b2[q] by {
            let pp = if p < i { p } else { p + 1 };
            let qq = if q < i { q } else { q + 1 };
            assert(b2[p] == b[pp] && b2[q] == b[qq]);
        }
        assert forall|p: int, q: int| 0 <= p < a2.len() && 0 <= q < a2.len() && p != q implies a2[p] != a2[q] by {
            assert(a2[p] == a[p] && a2[q] == a[q]);
        }
        lemma_held_sum_subset(m, a2, b2, d);
        lemma_held_sum_remove(m, b, i, d);
    }
}

/// A pass that finishes nobody changes nothing, and leaves every process from position
/// `i` on finished already or unable to finish.
proof fn lemma_pass_idle(m: DeadlockManager, st: BankState, i: int)
    requires
        0 <= i,
        !bank_pass(m, st, i).1,
    ensures
        bank_pass(m, st, i).0 == st,
        forall|j: int|
            i <= j < m.processes@.len() ==> st.done.contains(#[trigger] m.processes@[j]) || !can_finish(
                m,
                st.work,
                m.processes@[j],
            ),
    decreases m.processes@.len() - i,
{
    if i < m.processes@.len() {
        lemma_pass_idle(m, st, i + 1);
    }
}

/// A pass only adds registered processes to those finished, and at least one when it finds any.
proof fn lemma_pass_grows(m: DeadlockManager, st: BankState, i: int)
    requires
        0 <= i,
        forall|k: int| 0 <= k < st.done.len() ==> m.processes@.contains(#[trigger] st.done[k]),
    ensures
        forall|k: int|
            0 <= k < bank_pass(m, st, i).0.done.len() ==> m.processes@.contains(#[trigger] bank_pass(m, st, i).0.done[k]),
        bank_pass(m, st, i).0.done.len() >= st.done.len(),
        bank_pass(m, st, i).1 ==> bank_pass(m, st, i).0.done.len() > st.done.len(),
    decreases m.processes@.len() - i,
{
    if i < m.processes@.len() {
        let pid = m.processes@[i];
        if st.done.contains(pid) {
            lemma_pass_grows(m, st, i + 1);
        } else if can_finish(m, st.work, pid) {
            let st2 = BankState { work: give_back(m, st.work, pid), done: st.done.push(pid) };
            assert forall|k: int| 0 <= k < st2.done.len() implies m.processes@.contains(#[trigger] st2.done[k]) by {
                if k < st.done.len() {
                    assert(st2.done[k] == st.done[k]);
                } else {
                    assert(m.processes@[i] == pid);
                }
            }
            lemma_pass_grows(m, st2, i + 1);
        } else {
            lemma_pass_grows(m, st, i + 1);
        }
    }
}

proof fn lemma_done_fits(m: DeadlockManager, done: Seq<u32>)
    requires
        done.no_duplicates(),
        forall|k: int| 0 <= k < done.len() ==> m.processes@.contains(#[trigger] done[k]),
    ensures
        done.len() <= m.processes@.to_set().len(),
{
    done.unique_seq_to_set();
    vstd::seq_lib::seq_to_set_is_finite(m.processes@);
    assert(done.to_set().subset_of(m.processes@.to_set())) by {
        assert forall|x: u32| done.to_set().contains(x) implies m.processes@.to_set().contains(x) by {
            let k = choose|k: int| 0 <= k < done.len() && done[k] == x;
            assert(m.processes@.contains(done[k]));
        }
    }
    vstd::set_lib::lemma_len_subset(done.to_set(), m.processes@.to_set());
}

/// With enough passes left, the safety check stops at a state where every registered
/// process has finished or cannot finish.
proof fn lemma_loop_settles(m: DeadlockManager, st: BankState, fuel: int)
    requires
        st.work == replay_work(m, st.done),
        replay_ok(m, st.done),
        forall|k: int| 0 <= k < st.done.len() ==> m.processes@.contains(#[trigger] st.done[k]),
        fuel + st.done.len() > m.processes@.to_set().len(),
    ensures
        bank_loop(m, st, fuel).work == replay_work(m, bank_loop(m, st, fuel).done),
        forall|j: int|
            0 <= j < m.processes@.len() ==> bank_loop(m, st, fuel).done.contains(#[trigger] m.processes@[j]) || !can_finish(
                m,
                bank_loop(m, st, fuel).work,
                m.processes@[j],
            ),
    decreases fuel,
{
    lemma_done_fits(m, st.done);
    lemma_bank_pass_replays(m, st, 0);
    lemma_pass_grows(m, st, 0);
    let (st2, found) = bank_pass(m, st, 0);
    if found {
        lemma_done_fits(m, st2.done);
        lemma_loop_settles(m, st2, fuel - 1);
    } else {
        lemma_pass_idle(m, st, 0);
    }
}

/// More free instances never stop a process from finishing.
proof fn lemma_can_finish_monotone(m: DeadlockManager, w1: Seq<int>, w2: Seq<int>, pid: u32)
    requires
        can_finish(m, w1, pid),
        forall|d: int| 0 <= d < m.devices@.len() ==> #[trigger] w1[d] <= w2[d],
    ensures
        can_finish(m, w2, pid),
{
    assert forall|d: int| 0 <= d < m.devices@.len() implies need_at(m, pid, d) <= #[trigger] w2[d] by {
        assert(need_at(m, pid, d) <= w1[d]);
    }
}

/// When some order of the registered processes lets each finish in turn (each, at its
/// turn, able to obtain everything it may still need from what is free then), the safety
/// check lets every registered process finish.
pub proof fn law_safe_sequence_complete(m: DeadlockManager, order: Seq<u32>)
    requires
        replay_ok(m, order),
        forall|k: int| 0 <= k < order.len() ==> m.processes@.contains(#[trigger] order[k]),
        forall|i: int| 0 <= i < m.processes@.len() ==> order.contains(#[trigger] m.processes@[i]),
    ensures
        forall|i: int| 0 <= i < m.processes@.len() ==> safe_sequence(m).contains(#[trigger] m.processes@[i]),
{
    let st0 = BankState { work: initial_work(m), done: Seq::empty() };
    let fuel = m.processes@.len() + 1 as int;
    vstd::seq_lib::seq_to_set_is_finite(m.processes@);
    m.processes@.lemma_cardinality_of_set();
    lemma_loop_settles(m, st0, fuel);
    lemma_bank_loop_replays(m, st0, fuel);
    let fin = bank_loop(m, st0, fuel);
    assert(fin.done == safe_sequence(m));
    lemma_replay_work_sum(m, fin.done);
    lemma_prefix_done(m, order, fin, order.len() as int);
    assert forall|i: int| 0 <= i < m.processes@.len() implies safe_sequence(m).contains(#[trigger] m.processes@[i]) by {
        let j = choose|j: int| 0 <= j < order.len() && order[j] == m.processes@[i];
        assert(fin.done.contains(order[j]));
    }
}

proof fn lemma_prefix_done(m: DeadlockManager, order: Seq<u32>, fin: BankState, k: int)
    requires
        replay_ok(m, order),
        replay_ok(m, fin.done),
        forall|j: int| 0 <= j < order.len() ==> m.processes@.contains(#[trigger] order[j]),
        fin.work == replay_work(m, fin.done),
        forall|j: int|
            0 <= j < m.processes@.len() ==> fin.done.contains(#[trigger] m.processes@[j]) || !can_finish(
                m,
                fin.work,
                m.processes@[j],
            ),
        0 <= k <= order.len(),
    ensures
        forall|j: int| 0 <= j < k ==> fin.done.contains(#[trigger] order[j]),
    decreases k,
{
    if k > 0 {
        lemma_prefix_done(m, order, fin, k - 1);
        let p = order[k - 1];
        if !fin.done.contains(p) {
            let pre = order.take(k - 1);
            assert(can_finish(m, replay_work(m, pre), order[k - 1]));
            lemma_replay_work_sum(m, pre);
            lemma_replay_work_sum(m, fin.done);
            assert(pre.no_duplicates()) by {
                assert forall|a: int, b: int| 0 <= a < pre.len() && 0 <= b < pre.len() && a != b implies pre[a] != pre[b] by {
                    assert(pre[a] == order[a] && pre[b] == order[b]);
                }
            }
            assert forall|d: int| 0 <= d < m.devices@.len() implies #[trigger] replay_work(m, pre)[d] <= fin.work[d] by {
                assert forall|j: int| 0 <= j < pre.len() implies fin.done.contains(#[trigger] pre[j]) by {
                    assert(pre[j] == order[j]);
                }
                lemma_held_sum_subset(m, pre, fin.done, d);
            }
            lemma_can_finish_monotone(m, replay_work(m, pre), fin.work, p);
            assert(m.processes@.contains(p));
            let i = choose|i: int| 0 <= i < m.processes@.len() && m.processes@[i] == p;
            assert(fin.done.contains(m.processes@[i]) || !can_finish(m, fin.work, m.processes@[i]));
        }
        assert forall|j: int| 0 <= j < k implies fin.done.contains(#[trigger] order[j]) by {
            if j == k - 1 {
                assert(order[j] == p);
            }
        }
    }
}

} // verus!
