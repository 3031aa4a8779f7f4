use vstd::prelude::*;
use std::collections::HashMap;
use crate::page_replace::occupancy;
use crate::sums::count_set;

verus! {

broadcast use vstd::std_specs::hash::group_hash_axioms;

/// Number of physical frames: 1024 KB of memory in 4 KB pages.
pub const TOTAL_FRAMES: usize = 256;

/// Page size in bytes.
pub const PAGE_SIZE: u32 = 4096;

/// One page table entry: virtual page `vpn` lives in physical frame `pfn`.
#[derive(Debug, Clone, Copy)]
pub struct PageTableEntry {
    pub vpn: u32,
    pub pfn: u32,
}

/// Why a memory request was refused.
#[derive(Debug, Clone, Copy, PartialEq, Eq, Structural)]
pub enum MemoryError {
    /// Fewer free frames (`available`) than pages `needed`.
    NotEnoughFrames { needed: usize, available: usize },
    /// The process has no page table.
    NoPageTable { pid: u32 },
    /// The page `vpn` is not mapped for the process.
    VpnNotFound { vpn: u32, pid: u32 },
}

/// The result of translating a logical address.
#[derive(Debug, Clone, Copy)]
pub struct Translation {
    pub vpn: u32,
    pub offset: u32,
    pub pfn: u32,
    pub physical: u32,
}

/// Paged physical memory: which process owns each frame, and one page table per process.
pub struct MemoryManager {
    frame_map: Vec<Option<u32>>,
    page_tables: HashMap<u32, Vec<PageTableEntry>>,
    pub enabled: bool,
}

/// Positions of the free frames, in increasing order.
pub open spec fn free_slots(frames: Seq<Option<u32>>) -> Seq<int>
    decreases frames.len(),
{
    if frames.len() == 0 {
        Seq::empty()
    } else if frames.last() is None {
        free_slots(frames.drop_last()).push(frames.len() - 1)
    } else {
        free_slots(frames.drop_last())
    }
}

/// Frames needed for `size_kb` kilobytes: one per started 4 KB page.
pub open spec fn pages_for(size_kb: u32) -> int {
    (size_kb + 3) / 4
}

/// The page table handed out for the first `n` free frames of `frames`.
pub open spec fn table_for(frames: Seq<Option<u32>>, n: int) -> Seq<PageTableEntry> {
    Seq::new(n as nat, |v: int| PageTableEntry { vpn: v as u32, pfn: free_slots(frames)[v] as u32 })
}

/// The frames after handing the first `n` free frames to `pid`.
pub open spec fn allocated(frames: Seq<Option<u32>>, n: int, pid: u32) -> Seq<Option<u32>> {
    Seq::new(
        frames.len(),
        |i: int|
            if free_slots(frames).take(n).contains(i) {
                Some(pid)
            } else {
                frames[i]
            },
    )
}

/// The frames after releasing every frame that `pid` owns.
pub open spec fn released(frames: Seq<Option<u32>>, pid: u32) -> Seq<Option<u32>> {
    Seq::new(frames.len(), |i: int| if frames[i] == Some(pid) { None } else { frames[i] })
}

/// Which frames `pid` owns.
pub open spec fn owned_by(frames: Seq<Option<u32>>, pid: u32) -> Seq<bool> {
    frames.map_values(|o: Option<u32>| o == Some(pid))
}

/// Every owner of a frame has a page table.
pub open spec fn owners_registered(frames: Seq<Option<u32>>, tables: Map<u32, Seq<PageTableEntry>>) -> bool {
    forall|i: int| 0 <= i < frames.len() && #[trigger] frames[i] is Some ==> tables.contains_key(frames[i]->0)
}

/// `k` is the first entry of `table` for page `vpn`.
pub open spec fn is_first_entry(table: Seq<PageTableEntry>, vpn: u32, k: int) -> bool {
    &&& 0 <= k < table.len()
    &&& table[k].vpn == vpn
    &&& forall|j: int| 0 <= j < k ==> table[j].vpn != vpn
}

/// The first entry of `table` for page `vpn`, if any.
pub open spec fn lookup(table: Seq<PageTableEntry>, vpn: u32) -> Option<PageTableEntry> {
    if exists|k: int| is_first_entry(table, vpn, k) {
        Some(table[choose|k: int| is_first_entry(table, vpn, k)])
    } else {
        None
    }
}

/// The translation of `logical_addr` through `table`.
pub open spec fn translation_of(table: Seq<PageTableEntry>, pid: u32, logical_addr: u32) -> Result<Translation, MemoryError> {
    let vpn = (logical_addr / PAGE_SIZE) as u32;
    let offset = (logical_addr % PAGE_SIZE) as u32;
    match lookup(table, vpn) {
        Some(e) => Ok(
            Translation { vpn, offset, pfn: e.pfn, physical: (e.pfn * PAGE_SIZE + offset) as u32 },
        ),
        None => Err(MemoryError::VpnNotFound { vpn, pid }),
    }
}

proof fn lemma_free_slots(frames: Seq<Option<u32>>)
    ensures
        free_slots(frames).len() <= frames.len(),
        forall|k: int|
            0 <= k < free_slots(frames).len() ==> 0 <= #[trigger] free_slots(frames)[k] < frames.len()
                && frames[free_slots(frames)[k]] is None,
    decreases frames.len(),
{
    if frames.len() > 0 {
        lemma_free_slots(frames.drop_last());
    }
}

/// Scanning a longer prefix only appends free positions.
proof fn lemma_free_slots_prefix(frames: Seq<Option<u32>>, i: int, j: int)
    requires
        0 <= i <= j <= frames.len(),
    ensures
        free_slots(frames.take(i)).len() <= free_slots(frames.take(j)).len(),
        free_slots(frames.take(j)).take(free_slots(frames.take(i)).len() as int) == free_slots(frames.take(i)),
    decreases j - i,
{
    if i < j {
        lemma_free_slots_prefix(frames, i, j - 1);
        assert(frames.take(j).drop_last() =~= frames.take(j - 1));
        let a = free_slots(frames.take(i));
        let b = free_slots(frames.take(j - 1));
        assert(b.take(a.len() as int) == a);
        if frames.take(j).last() is None {
            assert(free_slots(frames.take(j)) == b.push(j - 1));
            assert(b.push(j - 1).take(a.len() as int) =~= b.take(a.len() as int));
        }
    } else {
        assert(free_slots(frames.take(i)).take(free_slots(frames.take(i)).len() as int) =~= free_slots(frames.take(i)));
    }
}

impl MemoryManager {
    /// Owner of each frame.
    pub closed spec fn frames(&self) -> Seq<Option<u32>> {
        self.frame_map@
    }

    /// Page table of each process.
    pub closed spec fn tables(&self) -> Map<u32, Seq<PageTableEntry>> {
        self.page_tables@.map_values(|t: Vec<PageTableEntry>| t@)
    }

    /// Whether paging has been switched on.
    pub closed spec fn is_enabled(&self) -> bool {
        self.enabled
    }

    /// There are `TOTAL_FRAMES` frames and every mapping points at one of them.
    closed spec fn bounded(&self) -> bool {
        &&& self.frame_map@.len() == TOTAL_FRAMES
        &&& forall|pid: u32, k: int|
            #![trigger self.page_tables@[pid]@[k]]
            self.page_tables@.contains_key(pid) && 0 <= k < self.page_tables@[pid]@.len()
                ==> self.page_tables@[pid]@[k].pfn < TOTAL_FRAMES
    }

    /// There are `TOTAL_FRAMES` frames, every mapped frame belongs to the process that maps
    /// it, and every owner of a frame has a page table.
    pub closed spec fn wf(&self) -> bool {
        &&& self.bounded()
        &&& frames_owned(self.frames(), self.tables())
        &&& owners_registered(self.frames(), self.tables())
    }

    /// What well-formedness says of the frames and the page tables.
    pub proof fn lemma_wf(&self)
        requires
            self.wf(),
        ensures
            self.frames().len() == TOTAL_FRAMES,
            frames_owned(self.frames(), self.tables()),
            owners_registered(self.frames(), self.tables()),
    {
    }

    pub fn new() -> (m: MemoryManager)
        ensures
            m.wf(),
            m.frames() == Seq::new(TOTAL_FRAMES as nat, |i: int| None::<u32>),
            m.tables() == Map::<u32, Seq<PageTableEntry>>::empty(),
            !m.is_enabled(),
    {
        let m = MemoryManager { frame_map: empty_frame_map(), page_tables: HashMap::new(), enabled: false };
        assert(m.tables() =~= Map::<u32, Seq<PageTableEntry>>::empty());
        assert(owners_registered(m.frames(), m.tables()));
        m
    }

    /// Switches paging on with every frame free and no page tables.
    pub fn init(&mut self)
        ensures
            final(self).wf(),
            final(self).frames() == Seq::new(TOTAL_FRAMES as nat, |i: int| None::<u32>),
            final(self).tables() == Map::<u32, Seq<PageTableEntry>>::empty(),
            final(self).is_enabled(),
    {
        self.enabled = true;
        self.frame_map = empty_frame_map();
        self.page_tables = HashMap::new();
        assert(self.tables() =~= Map::<u32, Seq<PageTableEntry>>::empty());
        assert(owners_registered(self.frames(), self.tables()));
    }

    /// Gives `pid` one frame per started 4 KB page of `size_kb`, taking the lowest free
    /// frames in order, and returns its new page table (which replaces any old one).
    pub fn allocate(&mut self, pid: u32, size_kb: u32) -> (r: Result<Vec<PageTableEntry>, MemoryError>)
        requires
            old(self).wf(),
        ensures
            final(self).wf(),
            final(self).is_enabled() == old(self).is_enabled(),
            pages_for(size_kb) <= free_slots(old(self).frames()).len() ==> (r matches Ok(entries) && {
                &&& entries@ == table_for(old(self).frames(), pages_for(size_kb))
                &&& final(self).frames() == allocated(old(self).frames(), pages_for(size_kb), pid)
                &&& final(self).tables() == old(self).tables().insert(pid, entries@)
            }),
            pages_for(size_kb) > free_slots(old(self).frames()).len() ==> {
                &&& r == Err::<Vec<PageTableEntry>, MemoryError>(
                    MemoryError::NotEnoughFrames {
                        needed: pages_for(size_kb) as usize,
                        available: free_slots(old(self).frames()).len() as usize,
                    },
                )
                &&& final(self).frames() == old(self).frames()
                &&& final(self).tables() == old(self).tables()
            },
    {
        let ghost f = self.frame_map@;
        let pages_needed: usize = ((size_kb as u64 + 3) / 4) as usize;
        assert(pages_needed == pages_for(size_kb));
        let mut free: Vec<usize> = Vec::new();
        let mut i: usize = 0;
        proof {
            assert(f.take(0) =~= Seq::<Option<u32>>::empty());
        }
        while i < self.frame_map.len() && free.len() < pages_needed
            invariant
                f == self.frame_map@,
                f.len() == TOTAL_FRAMES,
                i <= f.len(),
                free.len() <= pages_needed,
                free@.map_values(|x: usize| x as int) == free_slots(f.take(i as int)),
            decreases f.len() - i,
        {
            let ghost before = free@;
            proof {
                assert(f.take(i + 1).drop_last() =~= f.take(i as int));
            }
            if self.frame_map[i].is_none() {
                free.push(i);
                proof {
                    assert(free@.map_values(|x: usize| x as int) =~= before.map_values(|x: usize| x as int).push(i as int));
                }
            }
            i = i + 1;
        }
        let ghost fs = free_slots(f);
        proof {
            lemma_free_slots_prefix(f, i as int, f.len() as int);
            assert(f.take(f.len() as int) =~= f);
            lemma_free_slots(f);
            assert(free@.len() == free_slots(f.take(i as int)).len());
        }
        if free.len() < pages_needed {
            proof {
                assert(i == f.len());
            }
            return Err(MemoryError::NotEnoughFrames { needed: pages_needed, available: free.len() });
        }
        proof {
            let pre = free_slots(f.take(i as int));
            assert(fs.take(pre.len() as int) == pre);
            assert(pages_needed <= fs.len());
            assert forall|v: int| 0 <= v < pages_needed implies free@[v] as int == #[trigger] fs[v] by {
                assert(free@.map_values(|x: usize| x as int)[v] == free@[v] as int);
                assert(pre[v] == fs.take(pre.len() as int)[v]);
            }
        }
        let mut entries: Vec<PageTableEntry> = Vec::new();
        let mut v: usize = 0;
        while v < pages_needed
            invariant
                f.len() == TOTAL_FRAMES,
                fs == free_slots(f),
                pages_needed <= fs.len(),
                pages_needed <= TOTAL_FRAMES,
                free@.len() == pages_needed,
                forall|w: int| 0 <= w < pages_needed ==> free@[w] as int == #[trigger] fs[w],
                forall|k: int| 0 <= k < fs.len() ==> 0 <= #[trigger] fs[k] < f.len() && f[fs[k]] is None,
                v <= pages_needed,
                self.frame_map@.len() == f.len(),
                forall|j: int|
                    0 <= j < f.len() ==> #[trigger] self.frame_map@[j] == if fs.take(v as int).contains(j) {
                        Some(pid)
                    } else {
                        f[j]
                    },
                entries@ == table_for(f, pages_needed as int).take(v as int),
                self.bounded(),
                self.is_enabled() == old(self).is_enabled(),
                self.page_tables@ == old(self).page_tables@,
            decreases pages_needed - v,
        {
            let pfn = free[v];
            proof {
                assert(free@[v as int] as int == fs[v as int]);
            }
            let ghost before = self.frame_map@;
            self.frame_map.set(pfn, Some(pid));
            entries.push(PageTableEntry { vpn: v as u32, pfn: pfn as u32 });
            proof {
                assert forall|j: int| 0 <= j < f.len() implies #[trigger] self.frame_map@[j] == if fs.take(v + 1).contains(j) {
                    Some(pid)
                } else {
                    f[j]
                } by {
                    let t0 = fs.take(v as int);
                    let t1 = fs.take(v + 1);
                    if t0.contains(j) {
                        let w = choose|w: int| 0 <= w < t0.len() && t0[w] == j;
                        assert(t1[w] == j);
                    }
                    if t1.contains(j) && !t0.contains(j) {
                        let w = choose|w: int| 0 <= w < t1.len() && t1[w] == j;
                        if w < v {
                            assert(t0[w] == j);
                        }
                        assert(j == pfn);
                    }
                    if j == pfn {
                        assert(t1[v as int] == j);
                    }
                }
                assert(entries@ =~= table_for(f, pages_needed as int).take(v + 1));
            }
            v = v + 1;
        }
        let ghost old_tables = self.tables();
        let ghost old_pt = self.page_tables@;
        proof {
            assert(entries@ =~= table_for(f, pages_needed as int));
            assert(self.frame_map@ =~= allocated(f, pages_needed as int, pid));
            assert(old_tables == old(self).tables());
        }
        let result = Self::copy_table(&entries);
        self.page_tables.insert(pid, entries);
        proof {
            assert(self.tables() =~= old_tables.insert(pid, result@));
            assert forall|p: u32, k: int|
                #![trigger self.page_tables@[p]@[k]]
                self.page_tables@.contains_key(p) && 0 <= k < self.page_tables@[p]@.len()
                    implies self.page_tables@[p]@[k].pfn < TOTAL_FRAMES by {
                if p != pid {
                    assert(self.page_tables@[p] == old_pt[p]);
                }
            }
            law_allocate_keeps_ownership(f, old_tables, pid, pages_needed as int);
            lemma_allocate_registers(f, old_tables, pid, pages_needed as int);
        }
        Ok(result)
    }

    fn copy_table(t: &Vec<PageTableEntry>) -> (r: Vec<PageTableEntry>)
        ensures
            r@ == t@,
    {
        let mut r: Vec<PageTableEntry> = Vec::new();
        let mut i: usize = 0;
        while i < t.len()
            invariant
                i <= t.len(),
                r@ == t@.take(i as int),
            decreases t.len() - i,
        {
            r.push(t[i]);
            i = i + 1;
            assert(r@ =~= t@.take(i as int));
        }
        assert(r@ =~= t@);
        r
    }

    /// Translates `logical_addr` of `pid` into a physical address through its page table.
    pub fn translate(&self, pid: u32, logical_addr: u32) -> (r: Result<Translation, MemoryError>)
        requires
            self.wf(),
        ensures
            !self.tables().contains_key(pid) ==> r == Err::<Translation, MemoryError>(MemoryError::NoPageTable { pid }),
            self.tables().contains_key(pid) ==> r == translation_of(self.tables()[pid], pid, logical_addr),
    {
        let table = match self.page_tables.get(&pid) {
            Some(t) => t,
            None => {
                return Err(MemoryError::NoPageTable { pid });
            },
        };
        let ghost t = table@;
        proof {
            assert(self.tables()[pid] == t);
            assert(self.page_tables@.contains_key(pid) && self.page_tables@[pid]@ == t);
        }
        let vpn = logical_addr / PAGE_SIZE;
        let offset = logical_addr % PAGE_SIZE;
        let mut k: usize = 0;
        while k < table.len()
            invariant
                t == table@,
                self.wf(),
                self.page_tables@.contains_key(pid) && self.page_tables@[pid]@ == t,
                vpn == logical_addr / PAGE_SIZE,
                offset == logical_addr % PAGE_SIZE,
                offset < PAGE_SIZE,
                k <= t.len(),
                forall|j: int| 0 <= j < k ==> t[j].vpn != vpn,
            decreases t.len() - k,
        {
            if table[k].vpn == vpn {
                let e = table[k];
                proof {
                    assert(is_first_entry(t, vpn, k as int));
                    let c = choose|c: int| is_first_entry(t, vpn, c);
                    if c < k {
                        assert(t[c].vpn != vpn);
                    } else if c > k {
                        assert(t[k as int].vpn != vpn);
                    }
                    assert(self.page_tables@[pid]@[k as int].pfn < TOTAL_FRAMES);
                    assert(e == t[k as int]);
                    assert(e.pfn < 256);
                    assert(PAGE_SIZE == 4096);
                    assert(offset < 4096);
                    assert(e.pfn * PAGE_SIZE <= 255 * 4096) by (nonlinear_arith)
                        requires
                            e.pfn < 256,
                            PAGE_SIZE == 4096,
                    ;
                }
                return Ok(Translation { vpn, offset, pfn: e.pfn, physical: e.pfn * PAGE_SIZE + offset });
            }
            k = k + 1;
        }
        proof {
            if exists|c: int| is_first_entry(t, vpn, c) {
                let c = choose|c: int| is_first_entry(t, vpn, c);
                assert(t[c].vpn == vpn);
            }
        }
        Err(MemoryError::VpnNotFound { vpn, pid })
    }

    /// Releases every frame that `pid` owns and drops its page table; returns how many
    /// frames were released.
    pub fn free(&mut self, pid: u32) -> (r: Result<usize, MemoryError>)
        requires
            old(self).wf(),
        ensures
            final(self).wf(),
            final(self).is_enabled() == old(self).is_enabled(),
            !old(self).tables().contains_key(pid) ==> {
                &&& r == Err::<usize, MemoryError>(MemoryError::NoPageTable { pid })
                &&& final(self).frames() == old(self).frames()
                &&& final(self).tables() == old(self).tables()
            },
            old(self).tables().contains_key(pid) ==> {
                &&& r == Ok::<usize, MemoryError>(count_set(owned_by(old(self).frames(), pid)) as usize)
                &&& final(self).frames() == released(old(self).frames(), pid)
                &&& final(self).tables() == old(self).tables().remove(pid)
            },
    {
        let ghost f = self.frame_map@;
        let ghost old_tables = self.tables();
        let ghost old_pt = self.page_tables@;
        match self.page_tables.remove(&pid) {
            Some(_) => {},
            None => {
                proof {
                    assert(self.page_tables@ =~= old_pt);
                }
                return Err(MemoryError::NoPageTable { pid });
            },
        }
        proof {
            assert(self.page_tables@ == old_pt.remove(pid));
            assert(self.tables() =~= old_tables.remove(pid));
        }
        let ghost rest = self.page_tables@;
        let mut count: usize = 0;
        let mut i: usize = 0;
        while i < self.frame_map.len()
            invariant
                self.page_tables@ == rest,
                rest == old_pt.remove(pid),
                self.enabled == old(self).enabled,
                f.len() == TOTAL_FRAMES,
                i <= f.len(),
                self.frame_map@.len() == f.len(),
                forall|j: int| 0 <= j < f.len() ==> #[trigger] self.frame_map@[j] == if j < i {
                    released(f, pid)[j]
                } else {
                    f[j]
                },
                count == count_set(owned_by(f.take(i as int), pid)),
                count <= i,
            decreases f.len() - i,
        {
            proof {
                assert(owned_by(f.take(i + 1), pid).drop_last() =~= owned_by(f.take(i as int), pid));
            }
            if same_owner(self.frame_map[i], pid) {
                self.frame_map.set(i, None);
                count = count + 1;
            }
            i = i + 1;
        }
        proof {
            assert(f.take(i as int) =~= f);
            assert(self.frame_map@ =~= released(f, pid));
            assert forall|p: u32, j: int|
                #![trigger self.page_tables@[p]@[j]]
                self.page_tables@.contains_key(p) && 0 <= j < self.page_tables@[p]@.len()
                    implies self.page_tables@[p]@[j].pfn < TOTAL_FRAMES by {
                assert(old_pt.contains_key(p));
                assert(self.page_tables@[p] == old_pt[p]);
                assert(old_pt[p]@[j] == self.page_tables@[p]@[j]);
            }
            law_free_keeps_ownership(f, old_tables, pid);
            let nf = released(f, pid);
            assert forall|k: int| 0 <= k < nf.len() && #[trigger] nf[k] is Some implies old_tables.remove(pid).contains_key(
                nf[k]->0,
            ) by {
                assert(f[k] is Some);
            }
        }
        Ok(count)
    }

    /// Number of frames in use.
    pub fn used_frames(&self) -> (n: usize)
        ensures
            n == count_set(occupancy(self.frames())),
    {
        let mut n: usize = 0;
        let mut i: usize = 0;
        while i < self.frame_map.len()
            invariant
                i <= self.frame_map@.len(),
                n == count_set(occupancy(self.frame_map@.take(i as int))),
                n <= i,
            decreases self.frame_map@.len() - i,
        {
            proof {
                assert(occupancy(self.frame_map@.take(i + 1)).drop_last() =~= occupancy(self.frame_map@.take(i as int)));
            }
            if self.frame_map[i].is_some() {
                n = n + 1;
            }
            i = i + 1;
        }
        assert(self.frame_map@.take(i as int) =~= self.frame_map@);
        n
    }
}


// ───────────────────────── laws ─────────────────────────

/// Every frame that a page table maps exists, belongs to that process, and is mapped by
/// no other entry of the same table.
pub open spec fn frames_owned(frames: Seq<Option<u32>>, tables: Map<u32, Seq<PageTableEntry>>) -> bool {
    &&& forall|pid: u32, k: int|
        #![trigger tables[pid][k]]
        tables.contains_key(pid) && 0 <= k < tables[pid].len() ==> tables[pid][k].pfn < frames.len()
            && frames[tables[pid][k].pfn as int] == Some(pid)
    &&& forall|pid: u32, a: int, b: int|
        #![trigger tables[pid][a], tables[pid][b]]
        tables.contains_key(pid) && 0 <= a < b < tables[pid].len() ==> tables[pid][a].pfn != tables[pid][b].pfn
}

proof fn lemma_free_slots_increasing(frames: Seq<Option<u32>>)
    ensures
        forall|a: int, b: int|
            0 <= a < b < free_slots(frames).len() ==> #[trigger] free_slots(frames)[a] < #[trigger] free_slots(frames)[b],
    decreases frames.len(),
{
    if frames.len() > 0 {
        lemma_free_slots_increasing(frames.drop_last());
        lemma_free_slots(frames.drop_last());
    }
}

/// The position of `i` among the free frames, when it is one of the first `n`.
proof fn lemma_taken_slot(frames: Seq<Option<u32>>, n: int, i: int) -> (v: int)
    requires
        0 <= n <= free_slots(frames).len(),
        free_slots(frames).take(n).contains(i),
    ensures
        0 <= v < n,
        free_slots(frames)[v] == i,
{
    choose|v: int| 0 <= v < n && free_slots(frames).take(n)[v] == i
}

/// Allocation keeps every mapped frame owned by the process that maps it.
pub proof fn law_allocate_keeps_ownership(
    frames: Seq<Option<u32>>,
    tables: Map<u32, Seq<PageTableEntry>>,
    pid: u32,
    n: int,
)
    requires
        frames.len() == TOTAL_FRAMES,
        frames_owned(frames, tables),
        0 <= n <= free_slots(frames).len(),
    ensures
        frames_owned(allocated(frames, n, pid), tables.insert(pid, table_for(frames, n))),
{
    let nf = allocated(frames, n, pid);
    let nt = tables.insert(pid, table_for(frames, n));
    let fs = free_slots(frames);
    lemma_free_slots(frames);
    lemma_free_slots_increasing(frames);
    assert forall|q: u32, k: int| nt.contains_key(q) && 0 <= k < nt[q].len() implies nt[q][k].pfn < nf.len()
        && nf[nt[q][k].pfn as int] == Some(q) by {
        if q == pid {
            assert(nt[q][k].pfn == fs[k] as u32);
            assert(fs.take(n)[k] == fs[k]);
        } else {
            let i = tables[q][k].pfn as int;
            assert(frames[i] == Some(q));
            if fs.take(n).contains(i) {
                let v = lemma_taken_slot(frames, n, i);
                assert(frames[fs[v]] is None);
            }
        }
    }
    assert forall|q: u32, a: int, b: int| nt.contains_key(q) && 0 <= a < b < nt[q].len() implies nt[q][a].pfn
        != nt[q][b].pfn by {
        if q == pid {
            assert(fs[a] < fs[b]);
        } else {
            assert(tables[q][a].pfn != tables[q][b].pfn);
        }
    }
}

/// An allocation leaves every owner of a frame with a page table.
proof fn lemma_allocate_registers(
    frames: Seq<Option<u32>>,
    tables: Map<u32, Seq<PageTableEntry>>,
    pid: u32,
    n: int,
)
    requires
        owners_registered(frames, tables),
    ensures
        owners_registered(allocated(frames, n, pid), tables.insert(pid, table_for(frames, n))),
{
    let nf = allocated(frames, n, pid);
    assert forall|i: int| 0 <= i < nf.len() && #[trigger] nf[i] is Some implies tables.insert(pid, table_for(frames, n)).contains_key(
        nf[i]->0,
    ) by {
        if !free_slots(frames).take(n).contains(i) {
            assert(frames[i] is Some);
        }
    }
}

/// Freeing a process keeps every other mapped frame owned by the process that maps it.
pub proof fn law_free_keeps_ownership(frames: Seq<Option<u32>>, tables: Map<u32, Seq<PageTableEntry>>, pid: u32)
    requires
        frames_owned(frames, tables),
    ensures
        frames_owned(released(frames, pid), tables.remove(pid)),
{
    let nf = released(frames, pid);
    let nt = tables.remove(pid);
    assert forall|q: u32, k: int| nt.contains_key(q) && 0 <= k < nt[q].len() implies nt[q][k].pfn < nf.len()
        && nf[nt[q][k].pfn as int] == Some(q) by {
        assert(frames[tables[q][k].pfn as int] == Some(q));
    }
    assert forall|q: u32, a: int, b: int| nt.contains_key(q) && 0 <= a < b < nt[q].len() implies nt[q][a].pfn
        != nt[q][b].pfn by {
        assert(tables[q][a].pfn != tables[q][b].pfn);
    }
}

/// Releasing the frames of a process that owned none before an allocation gives the
/// frames back exactly as they were.
proof fn lemma_release_allocated(frames: Seq<Option<u32>>, n: int, pid: u32)
    requires
        frames.len() == TOTAL_FRAMES,
        0 <= n <= free_slots(frames).len(),
        !frames.contains(Some(pid)),
    ensures
        released(allocated(frames, n, pid), pid) == frames,
{
    let fs = free_slots(frames);
    let r = released(allocated(frames, n, pid), pid);
    lemma_free_slots(frames);
    assert forall|i: int| 0 <= i < frames.len() implies r[i] == frames[i] by {
        if fs.take(n).contains(i) {
            let v = lemma_taken_slot(frames, n, i);
        } else {
            if frames[i] == Some(pid) {
                assert(frames.contains(Some(pid)));
            }
        }
    }
    assert(r =~= frames);
}

/// For a process without a page table, freeing right after an allocation gives back the
/// frames and the page tables exactly as they were before it.
pub proof fn law_free_undoes_allocate(m: MemoryManager, pid: u32, size_kb: u32)
    requires
        m.wf(),
        !m.tables().contains_key(pid),
        pages_for(size_kb) <= free_slots(m.frames()).len(),
    ensures
        released(allocated(m.frames(), pages_for(size_kb), pid), pid) == m.frames(),
        m.tables().insert(pid, table_for(m.frames(), pages_for(size_kb))).remove(pid) == m.tables(),
{
    m.lemma_wf();
    if m.frames().contains(Some(pid)) {
        let i = choose|i: int| 0 <= i < m.frames().len() && m.frames()[i] == Some(pid);
        assert(m.frames()[i] is Some);
    }
    lemma_release_allocated(m.frames(), pages_for(size_kb), pid);
    assert(m.tables().insert(pid, table_for(m.frames(), pages_for(size_kb))).remove(pid) =~= m.tables());
}

/// Right after an allocation of `n` pages, a logical address on page `v < n` translates to
/// the `v`-th frame handed out (keeping the offset), and one beyond the last page is refused.
pub proof fn law_translate_after_allocate(frames: Seq<Option<u32>>, n: int, pid: u32, logical_addr: u32)
    requires
        frames.len() == TOTAL_FRAMES,
        0 <= n <= free_slots(frames).len(),
    ensures
        ({
            let vpn = logical_addr / PAGE_SIZE;
            let offset = logical_addr % PAGE_SIZE;
            let pfn = free_slots(frames)[vpn as int];
            translation_of(table_for(frames, n), pid, logical_addr) == if vpn < n {
                Ok::<Translation, MemoryError>(
                    Translation { vpn, offset, pfn: pfn as u32, physical: (pfn * PAGE_SIZE + offset) as u32 },
                )
            } else {
                Err::<Translation, MemoryError>(MemoryError::VpnNotFound { vpn, pid })
            }
        }),
{
    let vpn = logical_addr / PAGE_SIZE;
    let t = table_for(frames, n);
    lemma_free_slots(frames);
    if vpn < n {
        assert(is_first_entry(t, vpn, vpn as int));
        let c = choose|c: int| is_first_entry(t, vpn, c);
        if c < vpn {
            assert(t[c].vpn == c as u32);
        } else if c > vpn {
            assert(t[vpn as int].vpn == vpn);
        }
    } else {
        if exists|c: int| is_first_entry(t, vpn, c) {
            let c = choose|c: int| is_first_entry(t, vpn, c);
            assert(t[c].vpn == c as u32);
        }
    }
}

fn same_owner(o: Option<u32>, pid: u32) -> (r: bool)
    ensures
        r == (o == Some(pid)),
{
    match o {
        Some(p) => p == pid,
        None => false,
    }
}

fn empty_frame_map() -> (r: Vec<Option<u32>>)
    ensures
        r@ == Seq::new(TOTAL_FRAMES as nat, |i: int| None::<u32>),
{
    let mut r: Vec<Option<u32>> = Vec::new();
    while r.len() < TOTAL_FRAMES
        invariant
            r.len() <= TOTAL_FRAMES,
            forall|j: int| 0 <= j < r.len() ==> #[trigger] r@[j] == None::<u32>,
        decreases TOTAL_FRAMES - r.len(),
    {
        r.push(None);
    }
    assert(r@ =~= Seq::new(TOTAL_FRAMES as nat, |i: int| None::<u32>));
    r
}

} // verus!
