use vstd::prelude::*;
use crate::cycle::{find_cycle, cycle_marks, sorted_distinct_of, on_cycle, law_cycle_marks_on_cycles, law_cycle_found};
use crate::text::{split_on, lemma_split_on_step, need_entry, need_entries, is_first_of, trim_range, find_char, parse_usize_range};

verus! {

/// An I/O device with a number of identical instances.
#[derive(Debug)]
pub struct IoDevice {
    /// Total number of instances.
    pub instances: usize,
    /// Instances not held by anyone.
    pub available: usize,
    /// One entry per instance held, naming its holder.
    pub held_by: Vec<u32>,
    /// Processes waiting for an instance, in order of request.
    pub wait_queue: Vec<u32>,
}

/// The values of `s` without repeats, each where it first occurs.
pub open spec fn first_occurrences(s: Seq<u32>) -> Seq<u32>
    decreases s.len(),
{
    if s.len() == 0 {
        Seq::empty()
    } else {
        let r = first_occurrences(s.drop_last());
        if r.contains(s.last()) {
            r
        } else {
            r.push(s.last())
        }
    }
}

impl IoDevice {
    /// The processes holding an instance, each once, in order of first grant.
    pub fn holders(&self) -> (r: Vec<u32>)
        ensures
            r@ == first_occurrences(self.held_by@),
    {
        let mut r: Vec<u32> = Vec::new();
        let mut i: usize = 0;
        while i < self.held_by.len()
            invariant
                i <= self.held_by@.len(),
                r@ == first_occurrences(self.held_by@.take(i as int)),
            decreases self.held_by@.len() - i,
        {
            proof {
                assert(self.held_by@.take(i + 1).drop_last() =~= self.held_by@.take(i as int));
            }
            let p = self.held_by[i];
            let mut seen = false;
            let mut k: usize = 0;
            while k < r.len()
                invariant
                    k <= r@.len(),
                    seen == exists|j: int| 0 <= j < k && r@[j] == p,
                decreases r@.len() - k,
            {
                if r[k] == p {
                    seen = true;
                }
                k = k + 1;
            }
            if !seen {
                r.push(p);
            }
            i = i + 1;
        }
        assert(self.held_by@.take(i as int) =~= self.held_by@);
        r
    }

    /// A device with every instance free.
    pub fn new(instances: usize) -> (d: IoDevice)
        ensures
            d.instances == instances,
            d.available == instances,
            d.held_by@ == Seq::<u32>::empty(),
            d.wait_queue@ == Seq::<u32>::empty(),
    {
        IoDevice { instances, available: instances, held_by: Vec::new(), wait_queue: Vec::new() }
    }
}

/// A device under its name.
#[derive(Debug)]
pub struct NamedDevice {
    pub name: String,
    pub device: IoDevice,
}

/// An amount of a device associated with a process (held, requested or needed at most).
#[derive(Debug)]
pub struct Holding {
    pub pid: u32,
    pub device: String,
    pub amount: usize,
}

/// Devices, what each process holds, waits for and may need at most, and the registered processes.
pub struct DeadlockManager {
    pub devices: Vec<NamedDevice>,
    /// Amounts currently held, per process and device.
    pub allocation: Vec<Holding>,
    /// Amounts waited for, per process and device.
    pub request: Vec<Holding>,
    /// Declared maximum need, per process and device.
    pub max_need: Vec<Holding>,
    pub processes: Vec<u32>,
}

// ───────────────────────── model ─────────────────────────

/// `k` is the first device called `name`.
pub open spec fn is_device_slot(devs: Seq<NamedDevice>, name: Seq<char>, k: int) -> bool {
    &&& 0 <= k < devs.len()
    &&& devs[k].name@ == name
    &&& forall|j: int| 0 <= j < k ==> (#[trigger] devs[j]).name@ != name
}

/// Some device is called `name`.
pub open spec fn has_device(devs: Seq<NamedDevice>, name: Seq<char>) -> bool {
    exists|k: int| 0 <= k < devs.len() && (#[trigger] devs[k]).name@ == name
}

/// The position of the (first) device called `name`.
pub open spec fn device_slot(devs: Seq<NamedDevice>, name: Seq<char>) -> int {
    choose|k: int| is_device_slot(devs, name, k)
}

/// `k` is the first entry of `table` for `pid` and `dev`.
pub open spec fn is_entry(table: Seq<Holding>, pid: u32, dev: Seq<char>, k: int) -> bool {
    &&& 0 <= k < table.len()
    &&& table[k].pid == pid
    &&& table[k].device@ == dev
    &&& forall|j: int| 0 <= j < k ==> !((#[trigger] table[j]).pid == pid && table[j].device@ == dev)
}

pub open spec fn has_entry(table: Seq<Holding>, pid: u32, dev: Seq<char>) -> bool {
    exists|k: int| is_entry(table, pid, dev, k)
}

pub open spec fn entry_index(table: Seq<Holding>, pid: u32, dev: Seq<char>) -> int {
    choose|k: int| is_entry(table, pid, dev, k)
}

/// The amount that `table` records for `pid` and `dev` (0 when none).
pub open spec fn amount_of(table: Seq<Holding>, pid: u32, dev: Seq<char>) -> nat {
    if has_entry(table, pid, dev) {
        table[entry_index(table, pid, dev)].amount as nat
    } else {
        0
    }
}

/// `new` is `old` with the amount for `pid` and `dev` set to `v`: the existing entry is
/// updated in place, or a new one is appended.
pub open spec fn table_set(old: Seq<Holding>, new: Seq<Holding>, pid: u32, dev: Seq<char>, v: usize) -> bool {
    if has_entry(old, pid, dev) {
        let k = entry_index(old, pid, dev);
        &&& new.len() == old.len()
        &&& new[k].pid == pid
        &&& new[k].device == old[k].device
        &&& new[k].amount == v
        &&& forall|j: int| 0 <= j < old.len() && j != k ==> new[j] == old[j]
    } else {
        &&& new.len() == old.len() + 1
        &&& new.subrange(0, old.len() as int) == old
        &&& new[old.len() as int].pid == pid
        &&& new[old.len() as int].device@ == dev
        &&& new[old.len() as int].amount == v
    }
}

/// No two entries of `table` are for the same process and device.
pub open spec fn unique_entries(table: Seq<Holding>) -> bool {
    forall|i: int, j: int|
        0 <= i < j < table.len() ==> !((#[trigger] table[i]).pid == (#[trigger] table[j]).pid && table[i].device@
            == table[j].device@)
}

// ───────────────────────── tables ─────────────────────────

fn find_entry(table: &Vec<Holding>, pid: u32, dev: &String) -> (r: Option<usize>)
    ensures
        r matches Some(k) ==> is_entry(table@, pid, dev@, k as int) && has_entry(table@, pid, dev@) && entry_index(
            table@,
            pid,
            dev@,
        ) == k,
        r is None ==> !has_entry(table@, pid, dev@),
{
    let mut k: usize = 0;
    while k < table.len()
        invariant
            k <= table@.len(),
            forall|j: int| 0 <= j < k ==> !((#[trigger] table@[j]).pid == pid && table@[j].device@ == dev@),
        decreases table@.len() - k,
    {
        if table[k].pid == pid && table[k].device == *dev {
            proof {
                assert(is_entry(table@, pid, dev@, k as int));
                let c = choose|c: int| is_entry(table@, pid, dev@, c);
                if c < k {
                    assert(!(table@[c].pid == pid && table@[c].device@ == dev@));
                } else if c > k {
                    assert(!(table@[k as int].pid == pid && table@[k as int].device@ == dev@));
                }
            }
            return Some(k);
        }
        k = k + 1;
    }
    proof {
        if has_entry(table@, pid, dev@) {
            let c = choose|c: int| is_entry(table@, pid, dev@, c);
            assert(table@[c].pid == pid && table@[c].device@ == dev@);
        }
    }
    None
}

/// The amount recorded for `pid` and `dev`.
pub(crate) fn amount_in(table: &Vec<Holding>, pid: u32, dev: &String) -> (a: usize)
    ensures
        a == amount_of(table@, pid, dev@),
{
    match find_entry(table, pid, dev) {
        Some(k) => table[k].amount,
        None => 0,
    }
}

/// Sets the amount recorded for `pid` and `dev`.
fn set_amount(table: &mut Vec<Holding>, pid: u32, dev: &String, v: usize)
    ensures
        table_set(old(table)@, final(table)@, pid, dev@, v),
{
    match find_entry(table, pid, dev) {
        Some(k) => {
            let ghost before = table@;
            let mut h = table.remove(k);
            h.amount = v;
            table.insert(k, h);
            proof {
                assert forall|j: int| 0 <= j < before.len() && j != k implies table@[j] == before[j] by {
                    if j < k {
                        assert(table@[j] == before.remove(k as int)[j]);
                    } else {
                        assert(table@[j] == before.remove(k as int)[j - 1]);
                    }
                }
            }
        },
        None => {
            table.push(Holding { pid, device: dev.clone(), amount: v });
            proof {
                assert(table@.subrange(0, old(table)@.len() as int) =~= old(table)@);
            }
        },
    }
}

/// Reading back a table after setting one amount.
pub proof fn lemma_table_set(old: Seq<Holding>, new: Seq<Holding>, pid: u32, dev: Seq<char>, v: usize, p: u32, d: Seq<char>)
    requires
        table_set(old, new, pid, dev, v),
    ensures
        amount_of(new, p, d) == if p == pid && d == dev {
            v as nat
        } else {
            amount_of(old, p, d)
        },
{
    if has_entry(old, pid, dev) {
        let k = entry_index(old, pid, dev);
        assert(is_entry(old, pid, dev, k));
        assert(new[k].device@ == dev);
        if p == pid && d == dev {
            assert(is_entry(new, pid, dev, k)) by {
                assert forall|j: int| 0 <= j < k implies !((#[trigger] new[j]).pid == pid && new[j].device@ == dev) by {
                    assert(new[j] == old[j]);
                }
            }
            let c = choose|c: int| is_entry(new, pid, dev, c);
            if c < k {
                assert(new[c] == old[c]);
            } else if c > k {
                assert(!(new[k].pid == pid && new[k].device@ == dev));
            }
        } else {
            // entries for (p, d) are the same in both tables
            assert forall|j: int| 0 <= j < new.len() implies ((#[trigger] new[j]).pid == p && new[j].device@ == d) == (
            old[j].pid == p && old[j].device@ == d) by {
                if j != k {
                    assert(new[j] == old[j]);
                }
            }
            if has_entry(old, p, d) {
                let c = choose|c: int| is_entry(old, p, d, c);
                assert(is_entry(new, p, d, c));
                let c2 = choose|c2: int| is_entry(new, p, d, c2);
                if c2 < c {
                    assert(!(old[c2].pid == p && old[c2].device@ == d));
                } else if c2 > c {
                    assert(!(new[c].pid == p && new[c].device@ == d));
                }
                if c != k {
                    assert(new[c] == old[c]);
                }
            }
            if has_entry(new, p, d) {
                let c = choose|c: int| is_entry(new, p, d, c);
                assert(is_entry(old, p, d, c));
            }
        }
    } else {
        let n = old.len() as int;
        assert forall|j: int| 0 <= j < n implies new[j] == old[j] by {
            assert(new.subrange(0, n)[j] == new[j]);
        }
        if p == pid && d == dev {
            assert(is_entry(new, pid, dev, n)) by {
                assert forall|j: int| 0 <= j < n implies !((#[trigger] new[j]).pid == pid && new[j].device@ == dev) by {
                    assert(new[j] == old[j]);
                    if old[j].pid == pid && old[j].device@ == dev {
                        assert(has_entry(old, pid, dev)) by {
                            lemma_first_entry_exists(old, pid, dev, j);
                        }
                    }
                }
            }
            let c = choose|c: int| is_entry(new, pid, dev, c);
            if c < n {
                assert(!(new[c].pid == pid && new[c].device@ == dev));
            }
        } else {
            if has_entry(old, p, d) {
                let c = choose|c: int| is_entry(old, p, d, c);
                assert(is_entry(new, p, d, c));
                let c2 = choose|c2: int| is_entry(new, p, d, c2);
                if c2 < c {
                    assert(!(old[c2].pid == p && old[c2].device@ == d));
                } else if c2 > c {
                    assert(!(new[c].pid == p && new[c].device@ == d));
                }
            }
            if has_entry(new, p, d) {
                let c = choose|c: int| is_entry(new, p, d, c);
                assert(c < n);
                assert(is_entry(old, p, d, c));
            }
        }
    }
}

/// Setting one amount keeps the entries of a table unique.
proof fn lemma_table_set_unique(old: Seq<Holding>, new: Seq<Holding>, pid: u32, dev: Seq<char>, v: usize)
    requires
        table_set(old, new, pid, dev, v),
        unique_entries(old),
    ensures
        unique_entries(new),
{
    if has_entry(old, pid, dev) {
        let k = entry_index(old, pid, dev);
        assert(is_entry(old, pid, dev, k));
        assert forall|i: int, j: int| 0 <= i < j < new.len() implies !((#[trigger] new[i]).pid == (#[trigger] new[j]).pid
            && new[i].device@ == new[j].device@) by {
            assert(new[i].pid == old[i].pid && new[i].device@ == old[i].device@);
            assert(new[j].pid == old[j].pid && new[j].device@ == old[j].device@);
        }
    } else {
        let n = old.len() as int;
        assert forall|i: int| 0 <= i < n implies new[i] == old[i] by {
            assert(new.subrange(0, n)[i] == new[i]);
        }
        assert forall|i: int, j: int| 0 <= i < j < new.len() implies !((#[trigger] new[i]).pid == (#[trigger] new[j]).pid
            && new[i].device@ == new[j].device@) by {
            if j == n && new[i].pid == new[j].pid && new[i].device@ == new[j].device@ {
                lemma_first_entry_exists(old, pid, dev, i);
            }
        }
    }
}

/// Lowering one amount keeps the entries of a table unique.
proof fn lemma_reduce_unique(old: Seq<Holding>, new: Seq<Holding>, pid: u32, dev: Seq<char>, by: nat)
    requires
        reduce_step(old, new, pid, dev, by),
        unique_entries(old),
    ensures
        unique_entries(new),
{
    if has_entry(old, pid, dev) {
        lemma_table_set_unique(old, new, pid, dev, sat_sub(amount_of(old, pid, dev), by) as usize);
    }
}

/// Each step of a run of increments keeps the entries of a table unique.
proof fn lemma_bump_unique(ts: Seq<Seq<Holding>>, pids: Seq<u32>, dev: Seq<char>, i: int)
    requires
        bump_steps(ts, pids, dev),
        unique_entries(ts[0]),
        0 <= i <= pids.len(),
    ensures
        unique_entries(ts[i]),
    decreases i,
{
    if i > 0 {
        lemma_bump_unique(ts, pids, dev, i - 1);
        lemma_table_set_unique(ts[i - 1], ts[i], pids[i - 1], dev, (amount_of(ts[i - 1], pids[i - 1], dev) + 1) as usize);
    }
}

/// Each step of a run of decrements keeps the entries of a table unique.
proof fn lemma_drop_unique(ts: Seq<Seq<Holding>>, pids: Seq<u32>, dev: Seq<char>, i: int)
    requires
        drop_steps(ts, pids, dev),
        unique_entries(ts[0]),
        0 <= i <= pids.len(),
    ensures
        unique_entries(ts[i]),
    decreases i,
{
    if i > 0 {
        lemma_drop_unique(ts, pids, dev, i - 1);
        lemma_reduce_unique(ts[i - 1], ts[i], pids[i - 1], dev, 1);
    }
}

proof fn lemma_first_entry_exists(table: Seq<Holding>, pid: u32, dev: Seq<char>, j: int)
    requires
        0 <= j < table.len(),
        table[j].pid == pid && table[j].device@ == dev,
    ensures
        has_entry(table, pid, dev),
    decreases j,
{
    if exists|i: int| 0 <= i < j && table[i].pid == pid && table[i].device@ == dev {
        let i = choose|i: int| 0 <= i < j && table[i].pid == pid && table[i].device@ == dev;
        lemma_first_entry_exists(table, pid, dev, i);
    } else {
        assert(is_entry(table, pid, dev, j));
    }
}


// ───────────────────────── devices ─────────────────────────

/// What a request came to.
#[derive(Debug, Clone, Copy, PartialEq, Eq, Structural)]
pub enum RequestOutcome {
    /// No device of that name.
    NoSuchDevice,
    /// The instances were handed over; `available` are left.
    Granted { available: usize },
    /// Not enough instances (`available` free): the process joins the wait queue.
    Waiting { available: usize },
}

/// Number of occurrences of `x` in `s`.
pub open spec fn count(s: Seq<u32>, x: u32) -> nat
    decreases s.len(),
{
    if s.len() == 0 {
        0
    } else {
        count(s.drop_last(), x) + if s.last() == x {
            1nat
        } else {
            0
        }
    }
}

/// `d` is a freshly added device with `instances` instances.
pub open spec fn is_fresh_device(d: IoDevice, instances: usize) -> bool {
    &&& d.instances == instances
    &&& d.available == instances
    &&& d.held_by@ == Seq::<u32>::empty()
    &&& d.wait_queue@ == Seq::<u32>::empty()
}

/// `new` is `old` with only device `k` changed, and not its name.
pub open spec fn only_device_changed(old: Seq<NamedDevice>, new: Seq<NamedDevice>, k: int) -> bool {
    &&& new.len() == old.len()
    &&& new[k].name == old[k].name
    &&& forall|j: int| 0 <= j < old.len() && j != k ==> new[j] == old[j]
}

fn push_copies(v: &mut Vec<u32>, pid: u32, amount: usize)
    ensures
        final(v)@ == old(v)@ + Seq::new(amount as nat, |j: int| pid),
{
    let ghost v0 = v@;
    let mut i: usize = 0;
    while i < amount
        invariant
            i <= amount,
            v@ == v0 + Seq::new(i as nat, |j: int| pid),
        decreases amount - i,
    {
        v.push(pid);
        i = i + 1;
        assert(v@ =~= v0 + Seq::new(i as nat, |j: int| pid));
    }
}

pub(crate) fn find_device(devs: &Vec<NamedDevice>, name: &String) -> (r: Option<usize>)
    ensures
        r matches Some(k) ==> is_device_slot(devs@, name@, k as int) && has_device(devs@, name@) && device_slot(
            devs@,
            name@,
        ) == k,
        r is None ==> !has_device(devs@, name@),
{
    let mut k: usize = 0;
    while k < devs.len()
        invariant
            k <= devs@.len(),
            forall|j: int| 0 <= j < k ==> (#[trigger] devs@[j]).name@ != name@,
        decreases devs@.len() - k,
    {
        if devs[k].name == *name {
            proof {
                assert(is_device_slot(devs@, name@, k as int));
                let c = choose|c: int| is_device_slot(devs@, name@, c);
                if c < k {
                    assert(devs@[c].name@ != name@);
                } else if c > k {
                    assert(devs@[k as int].name@ != name@);
                }
            }
            return Some(k);
        }
        k = k + 1;
    }
    None
}

impl DeadlockManager {
    /// Device names are distinct, every device has as many instances as are free plus held,
    /// and each table has at most one entry per process and device.
    pub open spec fn wf(&self) -> bool {
        &&& unique_entries(self.allocation@)
        &&& unique_entries(self.request@)
        &&& unique_entries(self.max_need@)
        &&& forall|i: int, j: int|
            0 <= i < j < self.devices@.len() ==> (#[trigger] self.devices@[i]).name@ != (#[trigger] self.devices@[j]).name@
        &&& forall|k: int|
            0 <= k < self.devices@.len() ==> #[trigger] self.devices@[k].device.available
                + self.devices@[k].device.held_by@.len() == self.devices@[k].device.instances
    }

    /// The allocation table agrees with the devices: it names only devices that exist, and
    /// for every device each process holds, by the table, as many instances as it appears
    /// among the device's holders.
    pub open spec fn holdings_agree(&self) -> bool {
        &&& forall|k: int|
            0 <= k < self.allocation@.len() ==> has_device(self.devices@, #[trigger] self.allocation@[k].device@)
        &&& forall|d: int, p: u32|
            #![trigger amount_of(self.allocation@, p, self.devices@[d].name@)]
            0 <= d < self.devices@.len() ==> amount_of(self.allocation@, p, self.devices@[d].name@) == count(
                self.devices@[d].device.held_by@,
                p,
            )
    }

    pub fn new() -> (m: DeadlockManager)
        ensures
            m.wf(),
            m.holdings_agree(),
            m.devices@ == Seq::<NamedDevice>::empty(),
            m.allocation@ == Seq::<Holding>::empty(),
            m.request@ == Seq::<Holding>::empty(),
            m.max_need@ == Seq::<Holding>::empty(),
            m.processes@ == Seq::<u32>::empty(),
    {
        DeadlockManager {
            devices: Vec::new(),
            allocation: Vec::new(),
            request: Vec::new(),
            max_need: Vec::new(),
            processes: Vec::new(),
        }
    }

    /// Adds a device with `instances` free instances; a device of the same name is replaced.
    pub fn add_device(&mut self, name: &str, instances: usize)
        ensures
            old(self).wf() ==> final(self).wf(),
            old(self).wf() && old(self).holdings_agree() && (has_device(old(self).devices@, name@)
                ==> old(self).devices@[device_slot(old(self).devices@, name@)].device.held_by@.len() == 0)
                ==> final(self).holdings_agree(),
            has_device(old(self).devices@, name@) ==> {
                let k = device_slot(old(self).devices@, name@);
                &&& only_device_changed(old(self).devices@, final(self).devices@, k)
                &&& is_fresh_device(final(self).devices@[k].device, instances)
            },
            !has_device(old(self).devices@, name@) ==> {
                let n = old(self).devices@.len() as int;
                &&& final(self).devices@.len() == n + 1
                &&& final(self).devices@.subrange(0, n) == old(self).devices@
                &&& final(self).devices@[n].name@ == name@
                &&& is_fresh_device(final(self).devices@[n].device, instances)
            },
            final(self).allocation@ == old(self).allocation@,
            final(self).request@ == old(self).request@,
            final(self).max_need@ == old(self).max_need@,
            final(self).processes@ == old(self).processes@,
    {
        let key = name.to_owned();
        match find_device(&self.devices, &key) {
            Some(k) => {
                let ghost before = self.devices@;
                let mut nd = self.devices.remove(k);
                nd.device = IoDevice::new(instances);
                self.devices.insert(k, nd);
                proof {
                    assert forall|j: int| 0 <= j < before.len() && j != k implies self.devices@[j] == before[j] by {
                        if j < k {
                            assert(self.devices@[j] == before.remove(k as int)[j]);
                        } else {
                            assert(self.devices@[j] == before.remove(k as int)[j - 1]);
                        }
                    }
                    let m = *old(self);
                    if m.wf() && m.holdings_agree() && m.devices@[k as int].device.held_by@.len() == 0 {
                        assert forall|p: u32| #[trigger] amount_of(self.allocation@, p, key@) == count(
                            self.devices@[k as int].device.held_by@,
                            p,
                        ) by {
                            assert(amount_of(m.allocation@, p, m.devices@[k as int].name@) == count(
                                m.devices@[k as int].device.held_by@,
                                p,
                            ));
                            assert(m.devices@[k as int].device.held_by@ =~= Seq::<u32>::empty());
                        }
                        lemma_one_device_holdings(m, *self, key@);
                    }
                }
            },
            None => {
                self.devices.push(NamedDevice { name: key, device: IoDevice::new(instances) });
                proof {
                    assert(self.devices@.subrange(0, old(self).devices@.len() as int) =~= old(self).devices@);
                    if old(self).wf() {
                        assert forall|i: int, j: int|
                            0 <= i < j < self.devices@.len() implies (#[trigger] self.devices@[i]).name@
                            != (#[trigger] self.devices@[j]).name@ by {
                            if j == old(self).devices@.len() {
                                assert(self.devices@[i] == old(self).devices@[i]);
                            } else {
                                assert(self.devices@[i] == old(self).devices@[i]);
                                assert(self.devices@[j] == old(self).devices@[j]);
                            }
                        }
                    }
                    let m = *old(self);
                    let n = m.devices@.len() as int;
                    if m.wf() && m.holdings_agree() {
                        assert forall|k: int|
                            0 <= k < self.allocation@.len() implies has_device(
                            self.devices@,
                            #[trigger] self.allocation@[k].device@,
                        ) by {
                            let x = self.allocation@[k].device@;
                            assert(has_device(m.devices@, x));
                            let j = choose|j: int| 0 <= j < n && (#[trigger] m.devices@[j]).name@ == x;
                            assert(self.devices@[j] == m.devices@[j]);
                        }
                        assert forall|d: int, p: u32|
                            #![trigger amount_of(self.allocation@, p, self.devices@[d].name@)]
                            0 <= d < self.devices@.len() implies amount_of(
                            self.allocation@,
                            p,
                            self.devices@[d].name@,
                        ) == count(self.devices@[d].device.held_by@, p) by {
                            if d < n {
                                assert(self.devices@[d] == m.devices@[d]);
                                assert(amount_of(m.allocation@, p, m.devices@[d].name@) == count(
                                    m.devices@[d].device.held_by@,
                                    p,
                                ));
                            } else {
                                lemma_unknown_device_amount(m.allocation@, m.devices@, key@, p);
                                assert(self.devices@[d].device.held_by@ =~= Seq::<u32>::empty());
                            }
                        }
                    }
                }
            },
        }
    }

    /// `pid` asks for `amount` instances of `device`: granted at once when enough are free,
    /// otherwise the process joins the device's wait queue and the amount is recorded as requested.
    pub fn request_resource(&mut self, pid: u32, device: &str, amount: usize) -> (r: RequestOutcome)
        requires
            has_device(old(self).devices@, device@) ==> {
                let d = old(self).devices@[device_slot(old(self).devices@, device@)].device;
                &&& d.available >= amount ==> amount_of(old(self).allocation@, pid, device@) + amount <= usize::MAX
                &&& d.available < amount ==> amount_of(old(self).request@, pid, device@) + amount <= usize::MAX
            },
        ensures
            old(self).wf() ==> final(self).wf(),
            old(self).wf() && old(self).holdings_agree() ==> final(self).holdings_agree(),
            final(self).max_need@ == old(self).max_need@,
            final(self).processes@ == old(self).processes@,
            !has_device(old(self).devices@, device@) ==> {
                &&& r == RequestOutcome::NoSuchDevice
                &&& final(self).devices@ == old(self).devices@
                &&& final(self).allocation@ == old(self).allocation@
                &&& final(self).request@ == old(self).request@
            },
            has_device(old(self).devices@, device@) ==> {
                let k = device_slot(old(self).devices@, device@);
                let d = old(self).devices@[k].device;
                let nd = final(self).devices@[k].device;
                &&& only_device_changed(old(self).devices@, final(self).devices@, k)
                &&& nd.instances == d.instances
                &&& d.available >= amount ==> {
                    &&& r == RequestOutcome::Granted { available: (d.available - amount) as usize }
                    &&& nd.available == d.available - amount
                    &&& nd.held_by@ == d.held_by@ + Seq::new(amount as nat, |i: int| pid)
                    &&& nd.wait_queue@ == d.wait_queue@
                    &&& table_set(
                        old(self).allocation@,
                        final(self).allocation@,
                        pid,
                        device@,
                        (amount_of(old(self).allocation@, pid, device@) + amount) as usize,
                    )
                    &&& final(self).request@ == old(self).request@
                }
                &&& d.available < amount ==> {
                    &&& r == RequestOutcome::Waiting { available: d.available }
                    &&& nd.available == d.available
                    &&& nd.held_by@ == d.held_by@
                    &&& nd.wait_queue@ == d.wait_queue@.push(pid)
                    &&& final(self).allocation@ == old(self).allocation@
                    &&& table_set(
                        old(self).request@,
                        final(self).request@,
                        pid,
                        device@,
                        (amount_of(old(self).request@, pid, device@) + amount) as usize,
                    )
                }
            },
    {
        let key = device.to_owned();
        let k = match find_device(&self.devices, &key) {
            Some(k) => k,
            None => {
                return RequestOutcome::NoSuchDevice;
            },
        };
        let ghost before = self.devices@;
        let mut nd = self.devices.remove(k);
        let outcome;
        if nd.device.available >= amount {
            nd.device.available = nd.device.available - amount;
            push_copies(&mut nd.device.held_by, pid, amount);
            outcome = RequestOutcome::Granted { available: nd.device.available };
            let held = amount_in(&self.allocation, pid, &key);
            let ghost before_alloc = self.allocation@;
            set_amount(&mut self.allocation, pid, &key, held + amount);
            proof {
                if unique_entries(before_alloc) {
                    lemma_table_set_unique(before_alloc, self.allocation@, pid, key@, (held + amount) as usize);
                }
            }
        } else {
            nd.device.wait_queue.push(pid);
            outcome = RequestOutcome::Waiting { available: nd.device.available };
            let waiting = amount_in(&self.request, pid, &key);
            let ghost before_req = self.request@;
            set_amount(&mut self.request, pid, &key, waiting + amount);
            proof {
                if unique_entries(before_req) {
                    lemma_table_set_unique(before_req, self.request@, pid, key@, (waiting + amount) as usize);
                }
            }
        }
        self.devices.insert(k, nd);
        proof {
            assert forall|j: int| 0 <= j < before.len() && j != k implies self.devices@[j] == before[j] by {
                if j < k {
                    assert(self.devices@[j] == before.remove(k as int)[j]);
                } else {
                    assert(self.devices@[j] == before.remove(k as int)[j - 1]);
                }
            }
            if old(self).wf() && old(self).holdings_agree() {
                let m = *old(self);
                let d = before[k as int].device;
                let held = self.devices@[k as int].device.held_by@;
                assert(forall|p: u32| #[trigger] amount_of(m.allocation@, p, key@) == count(d.held_by@, p)) by {
                    assert forall|p: u32| #[trigger] amount_of(m.allocation@, p, key@) == count(d.held_by@, p) by {
                        assert(amount_of(m.allocation@, p, m.devices@[k as int].name@) == count(
                            m.devices@[k as int].device.held_by@,
                            p,
                        ));
                    }
                }
                if d.available >= amount {
                    law_grant_keeps_holdings(m.allocation@, self.allocation@, d.held_by@, pid, key@, amount);
                    lemma_table_set_names(
                        m.allocation@,
                        self.allocation@,
                        pid,
                        key@,
                        (amount_of(m.allocation@, pid, key@) + amount) as usize,
                        m.devices@,
                    );
                } else {
                    assert(held == d.held_by@);
                }
                lemma_one_device_holdings(m, *self, key@);
            }
        }
        outcome
    }
}


// ───────────────────────── release ─────────────────────────

/// What a release came to.
#[derive(Debug)]
pub enum ReleaseOutcome {
    /// No device of that name.
    NoSuchDevice,
    /// `released` instances came back (`available` free afterwards); then the processes in
    /// `woken` each received one instance from the wait queue.
    Released { released: usize, available: usize, woken: Vec<u32> },
}

pub open spec fn sat_sub(a: nat, b: nat) -> nat {
    if a >= b {
        (a - b) as nat
    } else {
        0
    }
}

pub open spec fn min_nat(a: nat, b: nat) -> nat {
    if a < b {
        a
    } else {
        b
    }
}

/// `s` without the first `n` occurrences of `x`.
pub open spec fn without_first(s: Seq<u32>, x: u32, n: nat) -> Seq<u32>
    decreases s.len(),
{
    if s.len() == 0 {
        Seq::empty()
    } else {
        let r = without_first(s.drop_last(), x, n);
        if s.last() == x && count(s.drop_last(), x) < n {
            r
        } else {
            r.push(s.last())
        }
    }
}

/// The amount for `pid` and `dev` goes down by `by` (not below 0) where an entry exists.
pub open spec fn reduce_step(old: Seq<Holding>, new: Seq<Holding>, pid: u32, dev: Seq<char>, by: nat) -> bool {
    if has_entry(old, pid, dev) {
        table_set(old, new, pid, dev, sat_sub(amount_of(old, pid, dev), by) as usize)
    } else {
        new == old
    }
}

/// `tables` steps through adding one instance of `dev` for each pid of `pids` in turn.
pub open spec fn bump_steps(tables: Seq<Seq<Holding>>, pids: Seq<u32>, dev: Seq<char>) -> bool {
    &&& tables.len() == pids.len() + 1
    &&& forall|i: int|
        0 <= i < pids.len() ==> table_set(
            #[trigger] tables[i],
            tables[i + 1],
            pids[i],
            dev,
            (amount_of(tables[i], pids[i], dev) + 1) as usize,
        )
}

/// `tables` steps through taking one requested instance of `dev` off each pid of `pids` in turn.
pub open spec fn drop_steps(tables: Seq<Seq<Holding>>, pids: Seq<u32>, dev: Seq<char>) -> bool {
    &&& tables.len() == pids.len() + 1
    &&& forall|i: int| 0 <= i < pids.len() ==> reduce_step(#[trigger] tables[i], tables[i + 1], pids[i], dev, 1)
}

fn count_in(v: &Vec<u32>, x: u32) -> (c: usize)
    ensures
        c == count(v@, x),
{
    let mut c: usize = 0;
    let mut i: usize = 0;
    while i < v.len()
        invariant
            i <= v@.len(),
            c == count(v@.take(i as int), x),
            c <= i,
        decreases v@.len() - i,
    {
        proof {
            assert(v@.take(i + 1).drop_last() =~= v@.take(i as int));
        }
        if v[i] == x {
            c = c + 1;
        }
        i = i + 1;
    }
    assert(v@.take(i as int) =~= v@);
    c
}

fn retain_without(v: &Vec<u32>, x: u32, n: usize) -> (r: Vec<u32>)
    ensures
        r@ == without_first(v@, x, n as nat),
{
    let mut r: Vec<u32> = Vec::new();
    let mut removed: usize = 0;
    let mut i: usize = 0;
    proof {
        assert(v@.take(0) =~= Seq::<u32>::empty());
    }
    while i < v.len()
        invariant
            i <= v@.len(),
            r@ == without_first(v@.take(i as int), x, n as nat),
            removed as nat == min_nat(count(v@.take(i as int), x), n as nat),
            removed <= i,
        decreases v@.len() - i,
    {
        proof {
            assert(v@.take(i + 1).drop_last() =~= v@.take(i as int));
        }
        if v[i] == x && removed < n {
            removed = removed + 1;
        } else {
            r.push(v[i]);
        }
        i = i + 1;
    }
    assert(v@.take(i as int) =~= v@);
    r
}

proof fn lemma_count_bound(s: Seq<u32>, x: u32)
    ensures
        count(s, x) <= s.len(),
    decreases s.len(),
{
    if s.len() > 0 {
        lemma_count_bound(s.drop_last(), x);
    }
}

proof fn lemma_without_first_len(s: Seq<u32>, x: u32, n: nat)
    requires
        n <= count(s, x),
    ensures
        without_first(s, x, n).len() == s.len() - n,
    decreases s.len(),
{
    if s.len() > 0 {
        let p = s.drop_last();
        if s.last() == x && count(p, x) < n {
            lemma_without_first_len(p, x, (n - 1) as nat);
            lemma_without_first_shift(p, x, n);
        } else {
            if s.last() == x {
                lemma_without_first_len(p, x, n);
            } else {
                lemma_without_first_len(p, x, n);
            }
        }
    }
}

/// When all occurrences up to `n` are removed, removing `n` or `n - 1` of the shorter prefix agree.
proof fn lemma_without_first_shift(s: Seq<u32>, x: u32, n: nat)
    requires
        n >= 1,
        count(s, x) < n,
    ensures
        without_first(s, x, n) == without_first(s, x, (n - 1) as nat),
    decreases s.len(),
{
    if s.len() > 0 {
        let p = s.drop_last();
        lemma_without_first_shift(p, x, n);
        if s.last() == x {
            assert(count(p, x) < n - 1);
        }
    }
}


proof fn lemma_count_concat(a: Seq<u32>, b: Seq<u32>, x: u32)
    ensures
        count(a + b, x) == count(a, x) + count(b, x),
    decreases b.len(),
{
    if b.len() > 0 {
        assert((a + b).drop_last() =~= a + b.drop_last());
        lemma_count_concat(a, b.drop_last(), x);
    } else {
        assert(a + b =~= a);
    }
}

proof fn lemma_count_copies(n: nat, pid: u32, x: u32)
    ensures
        count(Seq::new(n, |i: int| pid), x) == if x == pid {
            n
        } else {
            0
        },
    decreases n,
{
    if n > 0 {
        assert(Seq::new(n, |i: int| pid).drop_last() =~= Seq::new((n - 1) as nat, |i: int| pid));
        lemma_count_copies((n - 1) as nat, pid, x);
    }
}

proof fn lemma_count_without_first(s: Seq<u32>, x: u32, n: nat, p: u32)
    requires
        n <= count(s, x),
    ensures
        count(without_first(s, x, n), p) == count(s, p) - if p == x {
            n as int
        } else {
            0
        },
    decreases s.len(),
{
    if s.len() > 0 {
        let q = s.drop_last();
        if s.last() == x && count(q, x) < n {
            lemma_count_without_first(q, x, (n - 1) as nat, p);
            lemma_without_first_shift(q, x, n);
        } else {
            lemma_count_without_first(q, x, n, p);
            assert(without_first(s, x, n).drop_last() =~= without_first(q, x, n));
        }
    }
}

/// Giving back right away what a request was just granted leaves every process holding as
/// many instances of the device as before, and the whole amount comes back as free.
pub proof fn law_release_undoes_grant(held_by: Seq<u32>, pid: u32, amount: nat)
    ensures
        ({
            let after_grant = held_by + Seq::new(amount, |i: int| pid);
            &&& min_nat(amount, count(after_grant, pid)) == amount
            &&& forall|p: u32| #[trigger] count(without_first(after_grant, pid, amount), p) == count(held_by, p)
        }),
{
    let after_grant = held_by + Seq::new(amount, |i: int| pid);
    lemma_count_concat(held_by, Seq::new(amount, |i: int| pid), pid);
    lemma_count_copies(amount, pid, pid);
    assert forall|p: u32| #[trigger] count(without_first(after_grant, pid, amount), p) == count(held_by, p) by {
        lemma_count_without_first(after_grant, pid, amount, p);
        lemma_count_concat(held_by, Seq::new(amount, |i: int| pid), p);
        lemma_count_copies(amount, pid, p);
    }
}

/// Granting `amount` instances of `dev` to `pid` keeps the allocation table in agreement
/// with the holders (each process holds, by the table, as many instances as it appears
/// among the holders) and leaves the other devices' amounts alone.
pub proof fn law_grant_keeps_holdings(
    alloc: Seq<Holding>,
    alloc2: Seq<Holding>,
    held: Seq<u32>,
    pid: u32,
    dev: Seq<char>,
    amount: usize,
)
    requires
        forall|p: u32| #[trigger] amount_of(alloc, p, dev) == count(held, p),
        amount_of(alloc, pid, dev) + amount <= usize::MAX,
        table_set(alloc, alloc2, pid, dev, (amount_of(alloc, pid, dev) + amount) as usize),
    ensures
        forall|p: u32| #[trigger] amount_of(alloc2, p, dev) == count(held + Seq::new(amount as nat, |i: int| pid), p),
        forall|p: u32, d: Seq<char>| d != dev ==> #[trigger] amount_of(alloc2, p, d) == amount_of(alloc, p, d),
{
    assert forall|p: u32| #[trigger] amount_of(alloc2, p, dev) == count(held + Seq::new(amount as nat, |i: int| pid), p) by {
        lemma_table_set(alloc, alloc2, pid, dev, (amount_of(alloc, pid, dev) + amount) as usize, p, dev);
        lemma_count_concat(held, Seq::new(amount as nat, |i: int| pid), p);
        lemma_count_copies(amount as nat, pid, p);
    }
    assert forall|p: u32, d: Seq<char>| d != dev implies #[trigger] amount_of(alloc2, p, d) == amount_of(alloc, p, d) by {
        lemma_table_set(alloc, alloc2, pid, dev, (amount_of(alloc, pid, dev) + amount) as usize, p, d);
    }
}

proof fn lemma_bump_counts(ts: Seq<Seq<Holding>>, woken: Seq<u32>, dev: Seq<char>, base: Seq<u32>, i: int)
    requires
        bump_steps(ts, woken, dev),
        forall|p: u32| #[trigger] amount_of(ts[0], p, dev) == count(base, p),
        forall|p: u32| count(base, p) + woken.len() <= usize::MAX,
        0 <= i <= woken.len(),
    ensures
        forall|p: u32| #[trigger] amount_of(ts[i], p, dev) == count(base, p) + count(woken.take(i), p),
    decreases i,
{
    if i == 0 {
        assert forall|p: u32| #[trigger] amount_of(ts[i], p, dev) == count(base, p) + count(woken.take(i), p) by {
            assert(woken.take(0) =~= Seq::<u32>::empty());
        }
    } else {
        lemma_bump_counts(ts, woken, dev, base, i - 1);
        let w = woken[i - 1];
        assert(woken.take(i).drop_last() =~= woken.take(i - 1));
        lemma_count_bound(woken.take(i - 1), w);
        assert(count(base, w) + woken.len() <= usize::MAX);
        assert forall|p: u32| #[trigger] amount_of(ts[i], p, dev) == count(base, p) + count(woken.take(i), p) by {
            lemma_table_set(ts[i - 1], ts[i], w, dev, (amount_of(ts[i - 1], w, dev) + 1) as usize, p, dev);
        }
    }
}

/// Releasing instances of `dev` and serving its wait queue keeps the allocation table in
/// agreement with the holders: each process holds, by the table, as many instances as it
/// appears among the holders afterwards.
pub proof fn law_release_keeps_holdings(
    alloc: Seq<Holding>,
    a1: Seq<Holding>,
    ts: Seq<Seq<Holding>>,
    held: Seq<u32>,
    woken: Seq<u32>,
    pid: u32,
    dev: Seq<char>,
    amount: nat,
)
    requires
        forall|p: u32| #[trigger] amount_of(alloc, p, dev) == count(held, p),
        forall|p: u32| count(held, p) + woken.len() <= usize::MAX,
        reduce_step(alloc, a1, pid, dev, min_nat(amount, count(held, pid))),
        bump_steps(ts, woken, dev),
        ts[0] == a1,
    ensures
        forall|p: u32| #[trigger] amount_of(ts[woken.len() as int], p, dev) == count(
            without_first(held, pid, min_nat(amount, count(held, pid))) + woken,
            p,
        ),
{
    let r = min_nat(amount, count(held, pid));
    let base = without_first(held, pid, r);
    assert forall|p: u32| #[trigger] amount_of(a1, p, dev) == count(base, p) by {
        lemma_count_without_first(held, pid, r, p);
        if has_entry(alloc, pid, dev) {
            lemma_table_set(alloc, a1, pid, dev, sat_sub(amount_of(alloc, pid, dev), r) as usize, p, dev);
        }
    }
    assert forall|p: u32| count(base, p) + woken.len() <= usize::MAX by {
        lemma_count_without_first(held, pid, r, p);
    }
    lemma_bump_counts(ts, woken, dev, base, woken.len() as int);
    assert(woken.take(woken.len() as int) =~= woken);
    assert forall|p: u32| #[trigger] amount_of(ts[woken.len() as int], p, dev) == count(base + woken, p) by {
        lemma_count_concat(base, woken, p);
    }
}

/// Setting an amount for an existing device keeps every entry naming an existing device.
proof fn lemma_table_set_names(
    old: Seq<Holding>,
    new: Seq<Holding>,
    pid: u32,
    dev: Seq<char>,
    v: usize,
    devs: Seq<NamedDevice>,
)
    requires
        table_set(old, new, pid, dev, v),
        forall|k: int| 0 <= k < old.len() ==> has_device(devs, #[trigger] old[k].device@),
        has_device(devs, dev),
    ensures
        forall|k: int| 0 <= k < new.len() ==> has_device(devs, #[trigger] new[k].device@),
{
    if has_entry(old, pid, dev) {
        let e = entry_index(old, pid, dev);
        assert forall|k: int| 0 <= k < new.len() implies has_device(devs, #[trigger] new[k].device@) by {
            assert(new[k].device@ == old[k].device@);
        }
    } else {
        let n = old.len() as int;
        assert forall|k: int| 0 <= k < new.len() implies has_device(devs, #[trigger] new[k].device@) by {
            if k < n {
                assert(new.subrange(0, n)[k] == new[k]);
            }
        }
    }
}

/// Each step of a run of increments for `dev` keeps entries naming existing devices and
/// leaves the amounts of other devices alone.
proof fn lemma_bump_others(ts: Seq<Seq<Holding>>, pids: Seq<u32>, dev: Seq<char>, devs: Seq<NamedDevice>, i: int)
    requires
        bump_steps(ts, pids, dev),
        forall|k: int| 0 <= k < ts[0].len() ==> has_device(devs, #[trigger] ts[0][k].device@),
        has_device(devs, dev),
        0 <= i <= pids.len(),
    ensures
        forall|k: int| 0 <= k < ts[i].len() ==> has_device(devs, #[trigger] ts[i][k].device@),
        forall|p: u32, d: Seq<char>| d != dev ==> #[trigger] amount_of(ts[i], p, d) == amount_of(ts[0], p, d),
    decreases i,
{
    if i > 0 {
        lemma_bump_others(ts, pids, dev, devs, i - 1);
        let v = (amount_of(ts[i - 1], pids[i - 1], dev) + 1) as usize;
        lemma_table_set_names(ts[i - 1], ts[i], pids[i - 1], dev, v, devs);
        assert forall|p: u32, d: Seq<char>| d != dev implies #[trigger] amount_of(ts[i], p, d) == amount_of(ts[0], p, d) by {
            lemma_table_set(ts[i - 1], ts[i], pids[i - 1], dev, v, p, d);
        }
    }
}

/// Devices that keep their names are found under the same names.
proof fn lemma_same_names(old: Seq<NamedDevice>, new: Seq<NamedDevice>, k: int)
    requires
        only_device_changed(old, new, k),
        0 <= k < old.len(),
    ensures
        forall|x: Seq<char>| #[trigger] has_device(new, x) == has_device(old, x),
{
    assert forall|x: Seq<char>| #[trigger] has_device(new, x) == has_device(old, x) by {
        if has_device(old, x) {
            let j = choose|j: int| 0 <= j < old.len() && (#[trigger] old[j]).name@ == x;
            if j != k {
                assert(new[j] == old[j]);
            }
            assert(new[j].name@ == x);
        }
        if has_device(new, x) {
            let j = choose|j: int| 0 <= j < new.len() && (#[trigger] new[j]).name@ == x;
            if j != k {
                assert(new[j] == old[j]);
            }
            assert(old[j].name@ == x);
        }
    }
}

/// A table whose entries all name existing devices records nothing for a new name.
proof fn lemma_unknown_device_amount(table: Seq<Holding>, devs: Seq<NamedDevice>, name: Seq<char>, p: u32)
    requires
        forall|k: int| 0 <= k < table.len() ==> has_device(devs, #[trigger] table[k].device@),
        !has_device(devs, name),
    ensures
        amount_of(table, p, name) == 0,
{
    if has_entry(table, p, name) {
        let k = choose|k: int| is_entry(table, p, name, k);
        assert(has_device(devs, table[k].device@));
    }
}

/// When one device changes and the allocation stays in step with it (and with nothing else
/// changed), the allocation keeps agreeing with every device.
proof fn lemma_one_device_holdings(m: DeadlockManager, m2: DeadlockManager, dev: Seq<char>)
    requires
        m.wf(),
        m.holdings_agree(),
        has_device(m.devices@, dev),
        only_device_changed(m.devices@, m2.devices@, device_slot(m.devices@, dev)),
        forall|p: u32|
            #[trigger] amount_of(m2.allocation@, p, dev) == count(
                m2.devices@[device_slot(m.devices@, dev)].device.held_by@,
                p,
            ),
        forall|p: u32, d: Seq<char>| d != dev ==> #[trigger] amount_of(m2.allocation@, p, d) == amount_of(m.allocation@, p, d),
        forall|k: int| 0 <= k < m2.allocation@.len() ==> has_device(m.devices@, #[trigger] m2.allocation@[k].device@),
    ensures
        m2.holdings_agree(),
{
    let k = device_slot(m.devices@, dev);
    let c = choose|c: int| 0 <= c < m.devices@.len() && (#[trigger] m.devices@[c]).name@ == dev;
    lemma_first_device_slot(m.devices@, dev, c);
    lemma_same_names(m.devices@, m2.devices@, k);
    assert forall|d: int, p: u32|
        #![trigger amount_of(m2.allocation@, p, m2.devices@[d].name@)]
        0 <= d < m2.devices@.len() implies amount_of(m2.allocation@, p, m2.devices@[d].name@) == count(
            m2.devices@[d].device.held_by@,
            p,
        ) by {
        if d != k {
            assert(m2.devices@[d] == m.devices@[d]);
            assert(m.devices@[d].name@ != dev) by {
                if d < k {
                    assert(m.devices@[d].name@ != m.devices@[k].name@);
                } else {
                    assert(m.devices@[k].name@ != m.devices@[d].name@);
                }
            }
            assert(amount_of(m.allocation@, p, m.devices@[d].name@) == count(m.devices@[d].device.held_by@, p));
        } else {
            assert(m2.devices@[k].name@ == dev);
        }
    }
}

/// The first device called `name` exists when some device is so called.
proof fn lemma_first_device_slot(devs: Seq<NamedDevice>, name: Seq<char>, c: int)
    requires
        0 <= c < devs.len(),
        devs[c].name@ == name,
    ensures
        is_device_slot(devs, name, device_slot(devs, name)),
    decreases c,
{
    if exists|j: int| 0 <= j < c && (#[trigger] devs[j]).name@ == name {
        let j = choose|j: int| 0 <= j < c && (#[trigger] devs[j]).name@ == name;
        lemma_first_device_slot(devs, name, j);
    } else {
        assert(is_device_slot(devs, name, c));
    }
}

/// Hands free instances to the wait queue front to back, one instance each.
fn serve_queue(d: &mut IoDevice) -> (woken: Vec<u32>)
    ensures
        woken@ == old(d).wait_queue@.take(min_nat(old(d).available as nat, old(d).wait_queue@.len()) as int),
        final(d).wait_queue@ == old(d).wait_queue@.skip(
            min_nat(old(d).available as nat, old(d).wait_queue@.len()) as int,
        ),
        final(d).held_by@ == old(d).held_by@ + woken@,
        final(d).available == old(d).available - woken@.len(),
        final(d).instances == old(d).instances,
{
    let ghost q = d.wait_queue@;
    let ghost h0 = d.held_by@;
    let ghost a0 = d.available;
    let mut woken: Vec<u32> = Vec::new();
    let mut remaining: Vec<u32> = Vec::new();
    let mut i: usize = 0;
    while i < d.wait_queue.len()
        invariant
            d.wait_queue@ == q,
            d.instances == old(d).instances,
            i <= q.len(),
            woken@ == q.take(min_nat(a0 as nat, i as nat) as int),
            remaining@ == q.subrange(min_nat(a0 as nat, i as nat) as int, i as int),
            d.held_by@ == h0 + woken@,
            d.available == a0 - woken@.len(),
        decreases q.len() - i,
    {
        let waiter = d.wait_queue[i];
        if d.available > 0 {
            d.available = d.available - 1;
            d.held_by.push(waiter);
            woken.push(waiter);
            proof {
                assert(woken@ =~= q.take(min_nat(a0 as nat, (i + 1) as nat) as int));
                assert(d.held_by@ =~= h0 + woken@);
            }
        } else {
            remaining.push(waiter);
        }
        i = i + 1;
        assert(remaining@ =~= q.subrange(min_nat(a0 as nat, i as nat) as int, i as int));
    }
    d.wait_queue = remaining;
    assert(d.wait_queue@ =~= q.skip(min_nat(a0 as nat, q.len()) as int));
    woken
}

impl DeadlockManager {
    /// Books one instance of `key` handed to `w`: one more held, one less requested.
    fn book_wake(&mut self, w: u32, key: &String)
        requires
            amount_of(old(self).allocation@, w, key@) < usize::MAX,
        ensures
            table_set(
                old(self).allocation@,
                final(self).allocation@,
                w,
                key@,
                (amount_of(old(self).allocation@, w, key@) + 1) as usize,
            ),
            reduce_step(old(self).request@, final(self).request@, w, key@, 1),
            final(self).devices@ == old(self).devices@,
            final(self).max_need@ == old(self).max_need@,
            final(self).processes@ == old(self).processes@,
    {
        let held = amount_in(&self.allocation, w, key);
        set_amount(&mut self.allocation, w, key, held + 1);
        match find_entry(&self.request, w, key) {
            Some(e) => {
                let waiting = self.request[e].amount;
                let dec = if waiting >= 1 { waiting - 1 } else { 0 };
                set_amount(&mut self.request, w, key, dec);
            },
            None => {},
        }
    }

    /// Serves the wait queue of `device` from its free instances and books each instance
    /// handed out: one more held, one less requested.
    fn wake_waiting(&mut self, device: &str) -> (woken: Vec<u32>)
        requires
            has_device(old(self).devices@, device@) ==> forall|p: u32|
                amount_of(old(self).allocation@, p, device@)
                    + old(self).devices@[device_slot(old(self).devices@, device@)].device.wait_queue@.len() <= usize::MAX,
        ensures
            final(self).max_need@ == old(self).max_need@,
            final(self).processes@ == old(self).processes@,
            !has_device(old(self).devices@, device@) ==> {
                &&& woken@ == Seq::<u32>::empty()
                &&& final(self).devices@ == old(self).devices@
                &&& final(self).allocation@ == old(self).allocation@
                &&& final(self).request@ == old(self).request@
            },
            has_device(old(self).devices@, device@) ==> {
                let k = device_slot(old(self).devices@, device@);
                let d = old(self).devices@[k].device;
                let nd = final(self).devices@[k].device;
                let m = min_nat(d.available as nat, d.wait_queue@.len());
                &&& only_device_changed(old(self).devices@, final(self).devices@, k)
                &&& woken@ == d.wait_queue@.take(m as int)
                &&& nd.wait_queue@ == d.wait_queue@.skip(m as int)
                &&& nd.held_by@ == d.held_by@ + woken@
                &&& nd.available == d.available - m
                &&& nd.instances == d.instances
                &&& exists|ts: Seq<Seq<Holding>>|
                    bump_steps(ts, woken@, device@) && ts[0] == old(self).allocation@ && ts[woken@.len() as int]
                        == final(self).allocation@
                &&& exists|ts: Seq<Seq<Holding>>|
                    drop_steps(ts, woken@, device@) && ts[0] == old(self).request@ && ts[woken@.len() as int]
                        == final(self).request@
            },
    {
        let key = device.to_owned();
        let k = match find_device(&self.devices, &key) {
            Some(k) => k,
            None => {
                return Vec::new();
            },
        };
        let ghost before = self.devices@;
        let mut nd = self.devices.remove(k);
        let woken = serve_queue(&mut nd.device);
        self.devices.insert(k, nd);
        proof {
            assert forall|j: int| 0 <= j < before.len() && j != k implies self.devices@[j] == before[j] by {
                if j < k {
                    assert(self.devices@[j] == before.remove(k as int)[j]);
                } else {
                    assert(self.devices@[j] == before.remove(k as int)[j - 1]);
                }
            }
        }
        let ghost devs_after = self.devices@;
        let ghost wq_len = before[k as int].device.wait_queue@.len();
        let ghost a0 = self.allocation@;
        let ghost mut ta: Seq<Seq<Holding>> = seq![self.allocation@];
        let ghost mut tr: Seq<Seq<Holding>> = seq![self.request@];
        let mut i: usize = 0;
        while i < woken.len()
            invariant
                key@ == device@,
                i <= woken@.len(),
                woken@.len() <= wq_len,
                forall|p: u32| amount_of(a0, p, device@) + wq_len <= usize::MAX,
                ta.len() == i + 1,
                tr.len() == i + 1,
                ta[0] == a0,
                tr[0] == old(self).request@,
                ta[i as int] == self.allocation@,
                tr[i as int] == self.request@,
                forall|j: int|
                    0 <= j < i ==> table_set(
                        #[trigger] ta[j],
                        ta[j + 1],
                        woken@[j],
                        device@,
                        (amount_of(ta[j], woken@[j], device@) + 1) as usize,
                    ),
                forall|j: int| 0 <= j < i ==> reduce_step(#[trigger] tr[j], tr[j + 1], woken@[j], device@, 1),
                forall|p: u32| amount_of(self.allocation@, p, device@) <= amount_of(a0, p, device@) + i,
                self.devices@ == devs_after,
                self.max_need@ == old(self).max_need@,
                self.processes@ == old(self).processes@,
            decreases woken@.len() - i,
        {
            let w = woken[i];
            let ghost t_old = self.allocation@;
            proof {
                assert(amount_of(t_old, w, device@) <= amount_of(a0, w, device@) + i);
            }
            self.book_wake(w, &key);
            proof {
                assert forall|p: u32| amount_of(self.allocation@, p, device@) <= amount_of(a0, p, device@) + i + 1 by {
                    lemma_table_set(
                        t_old,
                        self.allocation@,
                        w,
                        device@,
                        (amount_of(t_old, w, device@) + 1) as usize,
                        p,
                        device@,
                    );
                }
            }
            proof {
                let ta2 = ta.push(self.allocation@);
                let tr2 = tr.push(self.request@);
                assert forall|j: int|
                    0 <= j < i + 1 implies table_set(
                    #[trigger] ta2[j],
                    ta2[j + 1],
                    woken@[j],
                    device@,
                    (amount_of(ta2[j], woken@[j], device@) + 1) as usize,
                ) by {
                    assert(ta2[j] == ta[j]);
                    if j < i {
                        assert(ta2[j + 1] == ta[j + 1]);
                    }
                }
                assert forall|j: int| 0 <= j < i + 1 implies reduce_step(#[trigger] tr2[j], tr2[j + 1], woken@[j], device@, 1) by {
                    assert(tr2[j] == tr[j]);
                    if j < i {
                        assert(tr2[j + 1] == tr[j + 1]);
                    }
                }
                ta = ta2;
                tr = tr2;
            }
            i = i + 1;
        }
        proof {
            assert(bump_steps(ta, woken@, device@));
            assert(drop_steps(tr, woken@, device@));
        }
        woken
    }
}


impl DeadlockManager {
    /// `pid` gives back up to `amount` instances of `device` that it holds; then the
    /// device's wait queue is served from the free instances.
    #[verifier::spinoff_prover]
    pub fn release_resource(&mut self, pid: u32, device: &str, amount: usize) -> (r: ReleaseOutcome)
        requires
            old(self).wf(),
            has_device(old(self).devices@, device@) ==> forall|p: u32|
                amount_of(old(self).allocation@, p, device@)
                    + old(self).devices@[device_slot(old(self).devices@, device@)].device.wait_queue@.len() <= usize::MAX,
        ensures
            final(self).wf(),
            old(self).holdings_agree() ==> final(self).holdings_agree(),
            final(self).max_need@ == old(self).max_need@,
            final(self).processes@ == old(self).processes@,
            !has_device(old(self).devices@, device@) ==> {
                &&& r is NoSuchDevice
                &&& final(self).devices@ == old(self).devices@
                &&& final(self).allocation@ == old(self).allocation@
                &&& final(self).request@ == old(self).request@
            },
            has_device(old(self).devices@, device@) ==> {
                let k = device_slot(old(self).devices@, device@);
                let d = old(self).devices@[k].device;
                let nd = final(self).devices@[k].device;
                let released = min_nat(amount as nat, count(d.held_by@, pid));
                let freed = d.available + released;
                let m = min_nat(freed as nat, d.wait_queue@.len());
                &&& r matches ReleaseOutcome::Released { released: rel, available, woken } && {
                    &&& rel == released
                    &&& available == freed
                    &&& woken@ == d.wait_queue@.take(m as int)
                    &&& nd.held_by@ == without_first(d.held_by@, pid, released) + woken@
                    &&& exists|a1: Seq<Holding>, ts: Seq<Seq<Holding>>|
                        reduce_step(old(self).allocation@, a1, pid, device@, released) && bump_steps(
                            ts,
                            woken@,
                            device@,
                        ) && ts[0] == a1 && ts[woken@.len() as int] == final(self).allocation@
                    &&& exists|ts: Seq<Seq<Holding>>|
                        drop_steps(ts, woken@, device@) && ts[0] == old(self).request@ && ts[woken@.len() as int]
                            == final(self).request@
                }
                &&& only_device_changed(old(self).devices@, final(self).devices@, k)
                &&& nd.wait_queue@ == d.wait_queue@.skip(m as int)
                &&& nd.available == freed - m
                &&& nd.instances == d.instances
            },
    {
        let key = device.to_owned();
        let k = match find_device(&self.devices, &key) {
            Some(k) => k,
            None => {
                return ReleaseOutcome::NoSuchDevice;
            },
        };
        let ghost before = self.devices@;
        let ghost d = before[k as int].device;
        let ghost a_before = self.allocation@;
        let mut nd = self.devices.remove(k);
        let held = count_in(&nd.device.held_by, pid);
        let released = if amount < held { amount } else { held };
        proof {
            assert(d.available + d.held_by@.len() == d.instances);
            lemma_count_bound(d.held_by@, pid);
            lemma_without_first_len(d.held_by@, pid, released as nat);
        }
        nd.device.held_by = retain_without(&nd.device.held_by, pid, released);
        nd.device.available = nd.device.available + released;
        let freed = nd.device.available;
        self.devices.insert(k, nd);
        match find_entry(&self.allocation, pid, &key) {
            Some(e) => {
                let a = self.allocation[e].amount;
                let left = if a >= released { a - released } else { 0 };
                set_amount(&mut self.allocation, pid, &key, left);
            },
            None => {},
        }
        let ghost a1 = self.allocation@;
        let ghost mid = self.devices@;
        proof {
            assert forall|j: int| 0 <= j < before.len() && j != k implies mid[j] == before[j] by {
                if j < k {
                    assert(mid[j] == before.remove(k as int)[j]);
                } else {
                    assert(mid[j] == before.remove(k as int)[j - 1]);
                }
            }
            assert(is_device_slot(mid, device@, k as int)) by {
                assert forall|j: int| 0 <= j < k implies (#[trigger] mid[j]).name@ != device@ by {
                    assert(mid[j] == before[j]);
                }
            }
            let c = choose|c: int| is_device_slot(mid, device@, c);
            if c < k {
                assert(mid[c] == before[c]);
            } else if c > k {
                assert(mid[k as int].name@ != device@);
            }
            assert(has_device(mid, device@));
            assert forall|p: u32| amount_of(a1, p, device@) + mid[k as int].device.wait_queue@.len() <= usize::MAX by {
                if has_entry(a_before, pid, device@) {
                    lemma_table_set(
                        a_before,
                        a1,
                        pid,
                        device@,
                        sat_sub(amount_of(a_before, pid, device@), released as nat) as usize,
                        p,
                        device@,
                    );
                }
            }
        }
        proof {
            assert(reduce_step(a_before, a1, pid, device@, released as nat));
            assert(mid[k as int].device.held_by@ == without_first(d.held_by@, pid, released as nat));
            assert(mid[k as int].device.available == freed);
            assert(mid[k as int].device.wait_queue@ == d.wait_queue@);
            assert(mid[k as int].device.instances == d.instances);
            assert(device_slot(mid, device@) == k);
        }
        let woken = self.wake_waiting(device);
        proof {
            let fin = self.devices@;
            assert(only_device_changed(before, fin, k as int));
            let ts = choose|ts: Seq<Seq<Holding>>|
                bump_steps(ts, woken@, device@) && ts[0] == a1 && ts[woken@.len() as int] == self.allocation@;
            assert(reduce_step(a_before, a1, pid, device@, released as nat) && bump_steps(ts, woken@, device@) && ts[0]
                == a1 && ts[woken@.len() as int] == self.allocation@);
            let m = min_nat(freed as nat, d.wait_queue@.len());
            assert(woken@ == d.wait_queue@.take(m as int));
            assert(fin[k as int].device.held_by@ == without_first(d.held_by@, pid, released as nat) + woken@);
            assert(fin[k as int].device.wait_queue@ == d.wait_queue@.skip(m as int));
            assert(fin[k as int].device.available == freed - m);
            assert(released as nat == min_nat(amount as nat, count(d.held_by@, pid)));
            lemma_reduce_unique(a_before, a1, pid, device@, released as nat);
            lemma_bump_unique(ts, woken@, device@, woken@.len() as int);
            let rs = choose|rs: Seq<Seq<Holding>>|
                drop_steps(rs, woken@, device@) && rs[0] == old(self).request@ && rs[woken@.len() as int]
                    == self.request@;
            lemma_drop_unique(rs, woken@, device@, woken@.len() as int);
            assert forall|j: int| 0 <= j < fin.len() implies #[trigger] fin[j].device.available
                + fin[j].device.held_by@.len() == fin[j].device.instances by {
                if j != k {
                    assert(fin[j] == before[j]);
                }
            }
            let om = *old(self);
            if om.holdings_agree() {
                let r = released as nat;
                assert forall|p: u32| #[trigger] amount_of(a_before, p, device@) == count(d.held_by@, p) by {
                    assert(amount_of(om.allocation@, p, om.devices@[k as int].name@) == count(
                        om.devices@[k as int].device.held_by@,
                        p,
                    ));
                }
                assert(woken@.len() <= d.wait_queue@.len());
                assert forall|p: u32| count(d.held_by@, p) + woken@.len() <= usize::MAX by {
                    assert(amount_of(a_before, p, device@) == count(d.held_by@, p));
                }
                law_release_keeps_holdings(a_before, a1, ts, d.held_by@, woken@, pid, device@, amount as nat);
                if has_entry(a_before, pid, device@) {
                    let v = sat_sub(amount_of(a_before, pid, device@), r) as usize;
                    lemma_table_set_names(a_before, a1, pid, device@, v, om.devices@);
                    assert forall|p: u32, x: Seq<char>| x != device@ implies #[trigger] amount_of(a1, p, x)
                        == amount_of(a_before, p, x) by {
                        lemma_table_set(a_before, a1, pid, device@, v, p, x);
                    }
                }
                lemma_bump_others(ts, woken@, device@, om.devices@, woken@.len() as int);
                lemma_one_device_holdings(om, *self, device@);
            }
        }
        ReleaseOutcome::Released { released, available: freed, woken }
    }
}


// ───────────────────────── wait-for graph ─────────────────────────

/// The processes that `pid` waits for (one entry per held instance).
#[derive(Debug)]
pub struct WaitFor {
    pub pid: u32,
    pub waits_for: Vec<u32>,
}

pub open spec fn graph_view(g: Seq<WaitFor>) -> Seq<(u32, Seq<u32>)> {
    g.map_values(|w: WaitFor| (w.pid, w.waits_for@))
}

/// Edges from `pid` to every holder in `holders` other than itself, in order.
pub open spec fn holder_edges(pid: u32, holders: Seq<u32>) -> Seq<(u32, u32)>
    decreases holders.len(),
{
    if holders.len() == 0 {
        Seq::empty()
    } else {
        let prev = holder_edges(pid, holders.drop_last());
        if holders.last() != pid {
            prev.push((pid, holders.last()))
        } else {
            prev
        }
    }
}

/// The edges contributed by one outstanding request: its process waits for every other
/// holder of the requested device.
pub open spec fn request_edges(devs: Seq<NamedDevice>, e: Holding) -> Seq<(u32, u32)> {
    if e.amount > 0 && has_device(devs, e.device@) {
        holder_edges(e.pid, devs[device_slot(devs, e.device@)].device.held_by@)
    } else {
        Seq::empty()
    }
}

/// All wait-for edges, request by request.
pub open spec fn wait_edges(devs: Seq<NamedDevice>, request: Seq<Holding>) -> Seq<(u32, u32)>
    decreases request.len(),
{
    if request.len() == 0 {
        Seq::empty()
    } else {
        wait_edges(devs, request.drop_last()) + request_edges(devs, request.last())
    }
}

/// `k` is the first node entry of `g` for `pid`.
pub open spec fn is_node_slot(g: Seq<(u32, Seq<u32>)>, pid: u32, k: int) -> bool {
    &&& 0 <= k < g.len()
    &&& g[k].0 == pid
    &&& forall|j: int| 0 <= j < k ==> (#[trigger] g[j]).0 != pid
}

/// Adds edge `e` to the adjacency list of its source, creating the entry when new.
pub open spec fn add_edge(g: Seq<(u32, Seq<u32>)>, e: (u32, u32)) -> Seq<(u32, Seq<u32>)> {
    if exists|k: int| is_node_slot(g, e.0, k) {
        let k = choose|k: int| is_node_slot(g, e.0, k);
        g.update(k, (e.0, g[k].1.push(e.1)))
    } else {
        g.push((e.0, seq![e.1]))
    }
}

/// The adjacency lists built from `edges` in order.
pub open spec fn graph_of(edges: Seq<(u32, u32)>) -> Seq<(u32, Seq<u32>)>
    decreases edges.len(),
{
    if edges.len() == 0 {
        Seq::empty()
    } else {
        add_edge(graph_of(edges.drop_last()), edges.last())
    }
}

/// `x` occurs in `a + b` exactly when it occurs in `a` or in `b`.
proof fn lemma_concat_contains<T>(a: Seq<T>, b: Seq<T>, x: T)
    ensures
        (a + b).contains(x) <==> (a.contains(x) || b.contains(x)),
{
    if (a + b).contains(x) {
        let j = choose|j: int| 0 <= j < (a + b).len() && (a + b)[j] == x;
        if j < a.len() {
            assert(a[j] == x);
        } else {
            assert(b[j - a.len()] == x);
        }
    }
    if a.contains(x) {
        let j = choose|j: int| 0 <= j < a.len() && a[j] == x;
        assert((a + b)[j] == x);
    }
    if b.contains(x) {
        let j = choose|j: int| 0 <= j < b.len() && b[j] == x;
        assert((a + b)[j + a.len()] == x);
    }
}

/// `x` occurs in `s.push(y)` exactly when it occurs in `s` or is `y`.
proof fn lemma_push_contains<T>(s: Seq<T>, y: T, x: T)
    ensures
        s.push(y).contains(x) <==> (s.contains(x) || x == y),
{
    lemma_concat_contains(s, seq![y], x);
    assert(s.push(y) =~= s + seq![y]);
    if x == y {
        assert(seq![y][0] == x);
    }
}

/// The edges of one request go from the requesting process to each holder other than itself.
proof fn lemma_holder_edges(pid: u32, holders: Seq<u32>, a: u32, b: u32)
    ensures
        holder_edges(pid, holders).contains((a, b)) <==> (a == pid && b != pid && holders.contains(b)),
    decreases holders.len(),
{
    if holders.len() == 0 {
        assert(!holder_edges(pid, holders).contains((a, b)));
    } else {
        let h = holders.drop_last();
        let l = holders.last();
        lemma_holder_edges(pid, h, a, b);
        lemma_push_contains(h, l, b);
        assert(h.push(l) =~= holders);
        if l != pid {
            lemma_push_contains(holder_edges(pid, h), (pid, l), (a, b));
        }
    }
}

/// A process waits for another exactly when it has an outstanding request for a device
/// that the other holds: there is an edge `(a, b)` exactly when some request of `a` for a
/// positive amount names an existing device among whose holders is `b`, and `b` is not `a`.
pub proof fn law_wait_edges(devs: Seq<NamedDevice>, request: Seq<Holding>, a: u32, b: u32)
    ensures
        wait_edges(devs, request).contains((a, b)) <==> (b != a && exists|k: int|
            0 <= k < request.len() && (#[trigger] request[k]).pid == a && request[k].amount > 0 && has_device(
                devs,
                request[k].device@,
            ) && devs[device_slot(devs, request[k].device@)].device.held_by@.contains(b)),
    decreases request.len(),
{
    if request.len() > 0 {
        let r = request.drop_last();
        let e = request.last();
        law_wait_edges(devs, r, a, b);
        lemma_concat_contains(wait_edges(devs, r), request_edges(devs, e), (a, b));
        if e.amount > 0 && has_device(devs, e.device@) {
            lemma_holder_edges(e.pid, devs[device_slot(devs, e.device@)].device.held_by@, a, b);
        }
        let n = request.len() - 1;
        if exists|k: int|
            0 <= k < request.len() && (#[trigger] request[k]).pid == a && request[k].amount > 0 && has_device(
                devs,
                request[k].device@,
            ) && devs[device_slot(devs, request[k].device@)].device.held_by@.contains(b) {
            let k = choose|k: int|
                0 <= k < request.len() && (#[trigger] request[k]).pid == a && request[k].amount > 0 && has_device(
                    devs,
                    request[k].device@,
                ) && devs[device_slot(devs, request[k].device@)].device.held_by@.contains(b);
            if k < n {
                assert(r[k] == request[k]);
            }
        }
        if exists|k: int|
            0 <= k < r.len() && (#[trigger] r[k]).pid == a && r[k].amount > 0 && has_device(devs, r[k].device@)
                && devs[device_slot(devs, r[k].device@)].device.held_by@.contains(b) {
            let k = choose|k: int|
                0 <= k < r.len() && (#[trigger] r[k]).pid == a && r[k].amount > 0 && has_device(devs, r[k].device@)
                    && devs[device_slot(devs, r[k].device@)].device.held_by@.contains(b);
            assert(request[k] == r[k]);
        }
        if a == e.pid && e.amount > 0 && has_device(devs, e.device@) && devs[device_slot(
            devs,
            e.device@,
        )].device.held_by@.contains(b) {
            assert(request[n] == e);
        }
    }
}

/// The adjacency lists list exactly the edges: each entry of a list is an edge from the
/// list's node, and each edge appears in the list of its source.
pub proof fn law_graph_lists_edges(edges: Seq<(u32, u32)>)
    ensures
        forall|k: int, j: int|
            #![trigger graph_of(edges)[k].1[j]]
            0 <= k < graph_of(edges).len() && 0 <= j < graph_of(edges)[k].1.len() ==> edges.contains(
                (graph_of(edges)[k].0, graph_of(edges)[k].1[j]),
            ),
        forall|a: u32, b: u32|
            #[trigger] edges.contains((a, b)) ==> exists|k: int|
                0 <= k < graph_of(edges).len() && graph_of(edges)[k].0 == a && (#[trigger] graph_of(
                    edges,
                )[k].1).contains(b),
    decreases edges.len(),
{
    if edges.len() > 0 {
        let pe = edges.drop_last();
        let e = edges.last();
        law_graph_lists_edges(pe);
        let g0 = graph_of(pe);
        let g = graph_of(edges);
        assert(pe.push(e) =~= edges);
        assert(g == add_edge(g0, e));
        assert forall|x: (u32, u32)| #[trigger] pe.contains(x) implies edges.contains(x) by {
            lemma_push_contains(pe, e, x);
        }
        if exists|k: int| is_node_slot(g0, e.0, k) {
            let s = choose|k: int| is_node_slot(g0, e.0, k);
            assert(g == g0.update(s, (e.0, g0[s].1.push(e.1))));
            assert forall|k: int, j: int|
                #![trigger g[k].1[j]]
                0 <= k < g.len() && 0 <= j < g[k].1.len() implies edges.contains((g[k].0, g[k].1[j])) by {
                if k != s {
                    assert(g[k] == g0[k]);
                    assert(pe.contains((g0[k].0, g0[k].1[j])));
                } else if j < g0[s].1.len() {
                    assert(g[k].1[j] == g0[s].1[j]);
                    assert(pe.contains((g0[s].0, g0[s].1[j])));
                } else {
                    assert(g[k].1[j] == e.1);
                    assert(edges[edges.len() - 1] == e);
                }
            }
            assert forall|a: u32, b: u32| #[trigger] edges.contains((a, b)) implies exists|k: int|
                0 <= k < g.len() && g[k].0 == a && (#[trigger] g[k].1).contains(b) by {
                lemma_push_contains(pe, e, (a, b));
                if (a, b) == e {
                    assert(g[s].1[g0[s].1.len() as int] == b);
                    assert(g[s].1.contains(b));
                } else {
                    assert(pe.contains((a, b)));
                    let k = choose|k: int| 0 <= k < g0.len() && g0[k].0 == a && (#[trigger] g0[k].1).contains(b);
                    if k != s {
                        assert(g[k] == g0[k]);
                    } else {
                        lemma_push_contains(g0[s].1, e.1, b);
                    }
                    assert(g[k].1.contains(b));
                }
            }
        } else {
            assert(g == g0.push((e.0, seq![e.1])));
            let n = g0.len() as int;
            assert forall|k: int, j: int|
                #![trigger g[k].1[j]]
                0 <= k < g.len() && 0 <= j < g[k].1.len() implies edges.contains((g[k].0, g[k].1[j])) by {
                if k < n {
                    assert(g[k] == g0[k]);
                    assert(pe.contains((g0[k].0, g0[k].1[j])));
                } else {
                    assert(g[k].1[j] == e.1);
                    assert(edges[edges.len() - 1] == e);
                }
            }
            assert forall|a: u32, b: u32| #[trigger] edges.contains((a, b)) implies exists|k: int|
                0 <= k < g.len() && g[k].0 == a && (#[trigger] g[k].1).contains(b) by {
                lemma_push_contains(pe, e, (a, b));
                if (a, b) == e {
                    assert(g[n].1[0] == b);
                    assert(g[n].1.contains(b));
                } else {
                    let k = choose|k: int| 0 <= k < g0.len() && g0[k].0 == a && (#[trigger] g0[k].1).contains(b);
                    assert(g[k] == g0[k]);
                    assert(g[k].1.contains(b));
                }
            }
        }
    }
}

/// In the wait-for graph no process waits for itself, and an entry `b` in the list of `a`
/// means that `a` has an outstanding request for a device that `b` holds; conversely every
/// such pair of distinct processes appears in the graph.
pub proof fn law_wait_for_graph(devs: Seq<NamedDevice>, request: Seq<Holding>)
    ensures
        forall|k: int, j: int|
            #![trigger graph_of(wait_edges(devs, request))[k].1[j]]
            0 <= k < graph_of(wait_edges(devs, request)).len() && 0 <= j < graph_of(
                wait_edges(devs, request),
            )[k].1.len() ==> {
                let a = graph_of(wait_edges(devs, request))[k].0;
                let b = graph_of(wait_edges(devs, request))[k].1[j];
                &&& b != a
                &&& exists|r: int|
                    0 <= r < request.len() && (#[trigger] request[r]).pid == a && request[r].amount > 0
                        && has_device(devs, request[r].device@) && devs[device_slot(
                        devs,
                        request[r].device@,
                    )].device.held_by@.contains(b)
            },
        forall|b: u32, r: int|
            0 <= r < request.len() && request[r].amount > 0 && has_device(devs, request[r].device@)
                && #[trigger] devs[device_slot(devs, (#[trigger] request[r]).device@)].device.held_by@.contains(b)
                && b != request[r].pid ==> exists|k: int|
                0 <= k < graph_of(wait_edges(devs, request)).len() && graph_of(wait_edges(devs, request))[k].0
                    == request[r].pid && (#[trigger] graph_of(wait_edges(devs, request))[k].1).contains(b),
{
    let edges = wait_edges(devs, request);
    let g = graph_of(edges);
    law_graph_lists_edges(edges);
    assert forall|k: int, j: int|
        #![trigger g[k].1[j]]
        0 <= k < g.len() && 0 <= j < g[k].1.len() implies {
            let a = g[k].0;
            let b = g[k].1[j];
            &&& b != a
            &&& exists|r: int|
                0 <= r < request.len() && (#[trigger] request[r]).pid == a && request[r].amount > 0 && has_device(
                    devs,
                    request[r].device@,
                ) && devs[device_slot(devs, request[r].device@)].device.held_by@.contains(b)
        } by {
        law_wait_edges(devs, request, g[k].0, g[k].1[j]);
    }
    assert forall|b: u32, r: int|
        0 <= r < request.len() && request[r].amount > 0 && has_device(devs, request[r].device@)
            && #[trigger] devs[device_slot(devs, (#[trigger] request[r]).device@)].device.held_by@.contains(b)
            && b != request[r].pid implies exists|k: int|
        0 <= k < g.len() && g[k].0 == request[r].pid && (#[trigger] g[k].1).contains(b) by {
        law_wait_edges(devs, request, request[r].pid, b);
        assert(edges.contains((request[r].pid, b)));
    }
}

fn add_edge_exec(g: &mut Vec<WaitFor>, from: u32, to: u32)
    ensures
        graph_view(final(g)@) == add_edge(graph_view(old(g)@), (from, to)),
{
    let ghost gv = graph_view(g@);
    let mut k: usize = 0;
    while k < g.len()
        invariant
            gv == graph_view(g@),
            g@ == old(g)@,
            k <= g@.len(),
            forall|j: int| 0 <= j < k ==> (#[trigger] gv[j]).0 != from,
        decreases g@.len() - k,
    {
        if g[k].pid == from {
            proof {
                assert(is_node_slot(gv, from, k as int));
                let c = choose|c: int| is_node_slot(gv, from, c);
                if c < k {
                    assert(gv[c].0 != from);
                } else if c > k {
                    assert(gv[k as int].0 != from);
                }
            }
            let mut w = g.remove(k);
            w.waits_for.push(to);
            g.insert(k, w);
            proof {
                assert(graph_view(g@) =~= gv.update(k as int, (from, gv[k as int].1.push(to))));
            }
            return;
        }
        k = k + 1;
    }
    proof {
        if exists|c: int| is_node_slot(gv, from, c) {
            let c = choose|c: int| is_node_slot(gv, from, c);
            assert(gv[c].0 == from);
        }
    }
    let mut targets: Vec<u32> = Vec::new();
    targets.push(to);
    g.push(WaitFor { pid: from, waits_for: targets });
    proof {
        assert(graph_view(g@) =~= gv.push((from, seq![to])));
    }
}

impl DeadlockManager {
    /// The wait-for graph: a process waits for every other holder of a device it has an
    /// outstanding request for.
    pub fn wait_for_graph(&self) -> (g: Vec<WaitFor>)
        ensures
            graph_view(g@) == graph_of(wait_edges(self.devices@, self.request@)),
            forall|k: int, j: int|
                0 <= k < g@.len() && 0 <= j < g@[k].waits_for@.len() ==> #[trigger] g@[k].waits_for@[j] != g@[k].pid,
    {
        let mut g: Vec<WaitFor> = Vec::new();
        let ghost mut edges: Seq<(u32, u32)> = Seq::empty();
        let mut j: usize = 0;
        proof {
            assert(self.request@.take(0) =~= Seq::<Holding>::empty());
        }
        while j < self.request.len()
            invariant
                j <= self.request@.len(),
                edges == wait_edges(self.devices@, self.request@.take(j as int)),
                graph_view(g@) == graph_of(edges),
            decreases self.request@.len() - j,
        {
            let e = &self.request[j];
            let ghost req_edges = request_edges(self.devices@, *e);
            proof {
                assert(self.request@.take(j + 1).drop_last() =~= self.request@.take(j as int));
                assert(wait_edges(self.devices@, self.request@.take(j + 1)) == edges + req_edges);
            }
            if e.amount > 0 {
                match find_device(&self.devices, &e.device) {
                    Some(k) => {
                        let held = &self.devices[k].device.held_by;
                        let ghost hs = held@;
                        let mut i: usize = 0;
                        let ghost e0 = edges;
                        proof {
                            assert(hs.take(0) =~= Seq::<u32>::empty());
                            assert(e0 + holder_edges(e.pid, hs.take(0)) =~= e0);
                        }
                        while i < held.len()
                            invariant
                                hs == held@,
                                i <= hs.len(),
                                edges == e0 + holder_edges(e.pid, hs.take(i as int)),
                                graph_view(g@) == graph_of(edges),
                            decreases hs.len() - i,
                        {
                            let h = held[i];
                            proof {
                                assert(hs.take(i + 1).drop_last() =~= hs.take(i as int));
                            }
                            if h != e.pid {
                                add_edge_exec(&mut g, e.pid, h);
                                proof {
                                    let ne = edges.push((e.pid, h));
                                    assert(ne.drop_last() =~= edges);
                                    assert(ne =~= e0 + holder_edges(e.pid, hs.take(i + 1)));
                                    edges = ne;
                                }
                            }
                            i = i + 1;
                        }
                        proof {
                            assert(hs.take(hs.len() as int) =~= hs);
                        }
                    },
                    None => {
                        proof {
                            assert(edges + req_edges =~= edges);
                        }
                    },
                }
            } else {
                proof {
                    assert(edges + req_edges =~= edges);
                }
            }
            j = j + 1;
        }
        proof {
            assert(self.request@.take(j as int) =~= self.request@);
            let gv = graph_view(g@);
            law_wait_for_graph(self.devices@, self.request@);
            assert forall|k: int, j: int|
                0 <= k < g@.len() && 0 <= j < g@[k].waits_for@.len() implies #[trigger] g@[k].waits_for@[j]
                != g@[k].pid by {
                assert(gv[k].1[j] == g@[k].waits_for@[j]);
                assert(gv[k].0 == g@[k].pid);
            }
        }
        g
    }
}


/// The wait-for graph and the processes that depth-first search finds on its cycles.
pub struct DeadlockReport {
    pub graph: Vec<WaitFor>,
    pub deadlocked: Vec<u32>,
}

impl DeadlockManager {
    /// Builds the wait-for graph and looks for cycles in it.
    pub fn detect_deadlock(&self) -> (r: DeadlockReport)
        ensures
            graph_view(r.graph@) == graph_of(wait_edges(self.devices@, self.request@)),
            sorted_distinct_of(r.deadlocked@, cycle_marks(graph_view(r.graph@))),
            forall|x: u32| #[trigger] r.deadlocked@.contains(x) ==> on_cycle(graph_view(r.graph@), x),
            forall|x: u32| #[trigger] on_cycle(graph_view(r.graph@), x) ==> r.deadlocked@.len() > 0,
    {
        let graph = self.wait_for_graph();
        let deadlocked = find_cycle(&graph);
        proof {
            let g = graph_view(graph@);
            assert forall|x: u32| #[trigger] deadlocked@.contains(x) implies on_cycle(g, x) by {
                law_cycle_marks_on_cycles(g, x);
            }
            assert forall|x: u32| #[trigger] on_cycle(g, x) implies deadlocked@.len() > 0 by {
                law_cycle_found(g, x);
                assert(cycle_marks(g).contains(cycle_marks(g)[0]));
                assert(deadlocked@.contains(cycle_marks(g)[0]));
            }
        }
        DeadlockReport { graph, deadlocked }
    }
}




// ───────────────────────── processes ─────────────────────────

/// `tables` steps through setting the declared need of `pid` for each entry in turn.
pub open spec fn set_steps(tables: Seq<Seq<Holding>>, pid: u32, entries: Seq<(Seq<char>, usize)>) -> bool {
    &&& tables.len() == entries.len() + 1
    &&& forall|i: int|
        0 <= i < entries.len() ==> table_set(#[trigger] tables[i], tables[i + 1], pid, entries[i].0, entries[i].1)
}

/// Each step of a run of settings keeps the entries of a table unique.
proof fn lemma_set_steps_unique(ts: Seq<Seq<Holding>>, pid: u32, entries: Seq<(Seq<char>, usize)>, i: int)
    requires
        set_steps(ts, pid, entries),
        unique_entries(ts[0]),
        0 <= i <= entries.len(),
    ensures
        unique_entries(ts[i]),
    decreases i,
{
    if i > 0 {
        lemma_set_steps_unique(ts, pid, entries, i - 1);
        lemma_table_set_unique(ts[i - 1], ts[i], pid, entries[i - 1].0, entries[i - 1].1);
    }
}

impl DeadlockManager {
    /// Records the need declared by the piece `max_str[a..b]`, if it is a valid `name:amount`.
    fn apply_need_piece(&mut self, pid: u32, max_str: &str, a: usize, b: usize)
        requires
            a <= b <= max_str@.len(),
        ensures
            match need_entry(max_str@.subrange(a as int, b as int)) {
                Some(e) => table_set(old(self).max_need@, final(self).max_need@, pid, e.0, e.1),
                None => final(self).max_need@ == old(self).max_need@,
            },
            final(self).devices@ == old(self).devices@,
            final(self).allocation@ == old(self).allocation@,
            final(self).request@ == old(self).request@,
            final(self).processes@ == old(self).processes@,
    {
        let ghost piece = max_str@.subrange(a as int, b as int);
        let (lo, hi) = trim_range(max_str, a, b);
        let ghost t = max_str@.subrange(lo as int, hi as int);
        match find_char(max_str, lo, hi, ':') {
            Some(c) => {
                proof {
                    let k = choose|k: int| is_first_of(t, ':', k);
                    if k < c {
                        assert(t[k] != ':');
                    } else if k > c {
                        assert(t[c as int] != ':');
                    }
                    assert(t.take(c as int) =~= max_str@.subrange(lo as int, lo + c));
                    assert(t.skip(c + 1) =~= max_str@.subrange(lo + c + 1, hi as int));
                }
                let key = max_str.substring_char(lo, lo + c).to_owned();
                match parse_usize_range(max_str, lo + c + 1, hi) {
                    Some(v) => {
                        set_amount(&mut self.max_need, pid, &key, v);
                    },
                    None => {},
                }
            },
            None => {},
        }
    }

    /// Registers `pid` (once) and records its declared maximum need, given as a comma
    /// separated list such as `printer:2,disk:1`; pieces that do not parse are skipped.
    /// A registered process has allocation and request records from then on (holding and
    /// waiting for nothing until it asks): see `allocation_map`.
    pub fn add_process(&mut self, pid: u32, max_str: &str)
        ensures
            old(self).wf() ==> final(self).wf(),
            old(self).holdings_agree() ==> final(self).holdings_agree(),
            final(self).processes@ == if old(self).processes@.contains(pid) {
                old(self).processes@
            } else {
                old(self).processes@.push(pid)
            },
            exists|ts: Seq<Seq<Holding>>|
                set_steps(ts, pid, need_entries(split_on(max_str@, ','))) && ts[0] == old(self).max_need@
                    && ts[ts.len() - 1] == final(self).max_need@,
            final(self).devices@ == old(self).devices@,
            final(self).allocation@ == old(self).allocation@,
            final(self).request@ == old(self).request@,
    {
        let mut known = false;
        let mut k: usize = 0;
        while k < self.processes.len()
            invariant
                k <= self.processes@.len(),
                known == exists|j: int| 0 <= j < k && self.processes@[j] == pid,
            decreases self.processes@.len() - k,
        {
            if self.processes[k] == pid {
                known = true;
            }
            k = k + 1;
        }
        if !known {
            self.processes.push(pid);
        }
        let ghost s = max_str@;
        let n = max_str.unicode_len();
        let mut start: usize = 0;
        let mut i: usize = 0;
        let ghost mut pieces: Seq<Seq<char>> = Seq::empty();
        let ghost mut ts: Seq<Seq<Holding>> = seq![self.max_need@];
        let ghost procs = self.processes@;
        proof {
            assert(s.take(0) =~= Seq::<char>::empty());
            assert(split_on(s.take(0), ',') =~= pieces.push(s.subrange(0, 0)));
        }
        while i < n
            invariant
                s == max_str@,
                n == s.len(),
                start <= i <= n,
                split_on(s.take(i as int), ',') == pieces.push(s.subrange(start as int, i as int)),
                set_steps(ts, pid, need_entries(pieces)),
                ts[0] == old(self).max_need@,
                ts[ts.len() - 1] == self.max_need@,
                self.devices@ == old(self).devices@,
                self.allocation@ == old(self).allocation@,
                self.request@ == old(self).request@,
                self.processes@ == procs,
            decreases n - i,
        {
            let ch = max_str.get_char(i);
            proof {
                lemma_split_on_step(s, ',', i as int, start as int, pieces);
            }
            if ch == ',' {
                let ghost before = self.max_need@;
                self.apply_need_piece(pid, max_str, start, i);
                proof {
                    let piece = s.subrange(start as int, i as int);
                    let np = pieces.push(piece);
                    assert(np.drop_last() =~= pieces);
                    match need_entry(piece) {
                        Some(e) => {
                            let nts = ts.push(self.max_need@);
                            assert(need_entries(np) == need_entries(pieces).push(e));
                            assert forall|j: int| 0 <= j < need_entries(np).len() implies table_set(
                                #[trigger] nts[j],
                                nts[j + 1],
                                pid,
                                need_entries(np)[j].0,
                                need_entries(np)[j].1,
                            ) by {
                                assert(nts[j] == ts[j]);
                                if j + 1 < ts.len() {
                                    assert(nts[j + 1] == ts[j + 1]);
                                }
                            }
                            ts = nts;
                        },
                        None => {
                            assert(need_entries(np) == need_entries(pieces));
                        },
                    }
                    pieces = np;
                }
                start = i + 1;
            }
            i = i + 1;
        }
        self.apply_need_piece(pid, max_str, start, n);
        proof {
            assert(s.take(n as int) =~= s);
            let piece = s.subrange(start as int, n as int);
            let np = pieces.push(piece);
            assert(np.drop_last() =~= pieces);
            match need_entry(piece) {
                Some(e) => {
                    let nts = ts.push(self.max_need@);
                    assert(need_entries(np) == need_entries(pieces).push(e));
                    assert forall|j: int| 0 <= j < need_entries(np).len() implies table_set(
                        #[trigger] nts[j],
                        nts[j + 1],
                        pid,
                        need_entries(np)[j].0,
                        need_entries(np)[j].1,
                    ) by {
                        assert(nts[j] == ts[j]);
                        if j + 1 < ts.len() {
                            assert(nts[j + 1] == ts[j + 1]);
                        }
                    }
                    assert(nts[0] == ts[0]);
                    ts = nts;
                },
                None => {
                    assert(need_entries(np) == need_entries(pieces));
                },
            }
            assert(split_on(s, ',') == np);
            assert(set_steps(ts, pid, need_entries(split_on(s, ','))));
            assert(ts[0] == old(self).max_need@);
            assert(ts[ts.len() - 1] == self.max_need@);
            if unique_entries(old(self).max_need@) {
                lemma_set_steps_unique(ts, pid, need_entries(split_on(s, ',')), ts.len() - 1);
            }
            if known {
                let j = choose|j: int| 0 <= j < old(self).processes@.len() && old(self).processes@[j] == pid;
                assert(old(self).processes@.contains(pid));
            } else {
                assert(!old(self).processes@.contains(pid));
            }
        }
    }
}

} // verus!
