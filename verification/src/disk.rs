use vstd::prelude::*;

verus! {

/// Number of blocks on the simulated disk.
pub const DISK_SIZE: usize = 50;

/// How a file's blocks are laid out.
#[derive(Debug, Clone, Copy, PartialEq, Eq, Structural)]
pub enum AllocType {
    Contiguous,
    Linked,
    Indexed,
}

/// A file on the disk: its data blocks and, for indexed allocation, its index block.
#[derive(Debug)]
pub struct FileEntry {
    pub name: String,
    pub alloc_type: AllocType,
    pub blocks: Vec<usize>,
    pub index_block: Option<usize>,
}

/// Why a disk request was refused.
#[derive(Debug, Clone, Copy, PartialEq, Eq, Structural)]
pub enum DiskError {
    /// A file of that name exists already.
    AlreadyExists,
    /// No run of `size` consecutive free blocks.
    NoContiguousSpace { size: usize },
    /// Only `available` free blocks where `need` are needed.
    NotEnoughBlocks { need: usize, available: usize },
    /// No file of that name.
    NotFound,
}

/// The disk: which blocks are in use, the files in order of creation, and the allocation mode.
pub struct DiskManager {
    pub disk: Vec<bool>,
    pub files: Vec<FileEntry>,
    pub alloc_mode: Option<AllocType>,
}

/// Where a new file goes.
pub ghost struct Placement {
    pub blocks: Seq<usize>,
    pub index_block: Option<usize>,
}

/// Positions of the free blocks, in increasing order.
pub open spec fn free_blocks(disk: Seq<bool>) -> Seq<usize>
    decreases disk.len(),
{
    if disk.len() == 0 {
        Seq::empty()
    } else if !disk.last() {
        free_blocks(disk.drop_last()).push((disk.len() - 1) as usize)
    } else {
        free_blocks(disk.drop_last())
    }
}

/// Blocks `start .. start + size` exist and are all free.
pub open spec fn run_fits(disk: Seq<bool>, start: int, size: int) -> bool {
    &&& 0 <= start
    &&& start + size <= disk.len()
    &&& forall|b: int| start <= b < start + size ==> !#[trigger] disk[b]
}

/// `start` is the lowest start of a free run of `size` blocks.
pub open spec fn is_first_run(disk: Seq<bool>, start: int, size: int) -> bool {
    &&& run_fits(disk, start, size)
    &&& forall|s: int| 0 <= s < start ==> !#[trigger] run_fits(disk, s, size)
}

/// The lowest start of a free run of `size` blocks, for `size` at least 1.
pub open spec fn contiguous_start(disk: Seq<bool>, size: int) -> Option<int> {
    if size >= 1 && exists|s: int| run_fits(disk, s, size) {
        Some(choose|s: int| is_first_run(disk, s, size))
    } else {
        None
    }
}

/// The mode used when none was chosen.
pub open spec fn mode_or_default(mode: Option<AllocType>) -> AllocType {
    match mode {
        Some(m) => m,
        None => AllocType::Contiguous,
    }
}

/// Where a file of `size` blocks goes under `mode`: contiguous takes the lowest free run;
/// linked takes the lowest free blocks; indexed takes the lowest free block as index block
/// and the next lowest ones as data blocks.
pub open spec fn plan(disk: Seq<bool>, mode: AllocType, size: int) -> Result<Placement, DiskError> {
    let free = free_blocks(disk);
    match mode {
        AllocType::Contiguous => match contiguous_start(disk, size) {
            Some(s) => Ok(Placement { blocks: Seq::new(size as nat, |i: int| (s + i) as usize), index_block: None }),
            None => Err(DiskError::NoContiguousSpace { size: size as usize }),
        },
        AllocType::Linked => if free.len() < size {
            Err(DiskError::NotEnoughBlocks { need: size as usize, available: free.len() as usize })
        } else {
            Ok(Placement { blocks: free.take(size), index_block: None })
        },
        AllocType::Indexed => if free.len() < size + 1 {
            Err(DiskError::NotEnoughBlocks { need: (size + 1) as usize, available: free.len() as usize })
        } else {
            Ok(Placement { blocks: free.subrange(1, size + 1), index_block: Some(free[0]) })
        },
    }
}

/// The disk after marking the blocks of `p` used.
pub open spec fn occupy(disk: Seq<bool>, p: Placement) -> Seq<bool> {
    Seq::new(
        disk.len(),
        |b: int| disk[b] || p.blocks.contains(b as usize) || p.index_block == Some(b as usize),
    )
}

/// The disk after freeing the blocks of `f`.
pub open spec fn vacate(disk: Seq<bool>, f: FileEntry) -> Seq<bool> {
    Seq::new(
        disk.len(),
        |b: int| disk[b] && !f.blocks@.contains(b as usize) && f.index_block != Some(b as usize),
    )
}

/// Some file is called `name`.
pub open spec fn has_file(files: Seq<FileEntry>, name: Seq<char>) -> bool {
    exists|k: int| 0 <= k < files.len() && (#[trigger] files[k]).name@ == name
}

/// `k` is the first file called `name`.
pub open spec fn is_file_index(files: Seq<FileEntry>, name: Seq<char>, k: int) -> bool {
    &&& 0 <= k < files.len()
    &&& files[k].name@ == name
    &&& forall|j: int| 0 <= j < k ==> (#[trigger] files[j]).name@ != name
}

/// The position of the (first) file called `name`.
pub open spec fn file_index(files: Seq<FileEntry>, name: Seq<char>) -> int {
    choose|k: int| is_file_index(files, name, k)
}

/// `new_files` is `old_files` with one more file, called `name`, placed at `p` under `mode`.
pub open spec fn file_added(
    old_files: Seq<FileEntry>,
    new_files: Seq<FileEntry>,
    name: Seq<char>,
    mode: AllocType,
    p: Placement,
) -> bool {
    let last = new_files[new_files.len() - 1];
    &&& new_files.len() == old_files.len() + 1
    &&& new_files.subrange(0, old_files.len() as int) == old_files
    &&& last.name@ == name
    &&& last.alloc_type == mode
    &&& last.blocks@ == p.blocks
    &&& last.index_block == p.index_block
}

/// The allocation mode named by a (lower-case) mode name; anything unknown means contiguous.
pub open spec fn mode_named(s: Seq<char>) -> AllocType {
    if s == seq!['l', 'i', 'n', 'k', 'e', 'd'] {
        AllocType::Linked
    } else if s == seq!['i', 'n', 'd', 'e', 'x', 'e', 'd'] {
        AllocType::Indexed
    } else {
        AllocType::Contiguous
    }
}

/// What `str::to_lowercase` returns for a string.
pub uninterp spec fn lowercase(s: Seq<char>) -> Seq<char>;

/// `str::to_lowercase`: the string with every character mapped to its Unicode lower case;
/// the contract names the result and claims nothing else of it.
#[verifier::external_body]
fn to_lower(s: &str) -> (r: String)
    ensures
        r@ == lowercase(s@),
{
    s.to_lowercase()
}

fn same_text(a: &str, b: &str) -> (r: bool)
    ensures
        r == (a@ == b@),
{
    let n = a.unicode_len();
    if n != b.unicode_len() {
        return false;
    }
    let mut i: usize = 0;
    while i < n
        invariant
            n == a@.len(),
            n == b@.len(),
            i <= n,
            forall|j: int| 0 <= j < i ==> a@[j] == b@[j],
        decreases n - i,
    {
        if a.get_char(i) != b.get_char(i) {
            return false;
        }
        i = i + 1;
    }
    assert(a@ =~= b@);
    true
}

impl AllocType {
    /// The mode named by an already lower-cased name; anything else means contiguous.
    pub fn from_lowercase_name(name: &str) -> (m: AllocType)
        ensures
            m == mode_named(name@),
    {
        proof {
            reveal_strlit("linked");
            reveal_strlit("indexed");
        }
        if same_text(name, "linked") {
            assert("linked"@ =~= seq!['l', 'i', 'n', 'k', 'e', 'd']);
            AllocType::Linked
        } else if same_text(name, "indexed") {
            assert("indexed"@ =~= seq!['i', 'n', 'd', 'e', 'x', 'e', 'd']);
            AllocType::Indexed
        } else {
            assert("linked"@ =~= seq!['l', 'i', 'n', 'k', 'e', 'd']);
            assert("indexed"@ =~= seq!['i', 'n', 'd', 'e', 'x', 'e', 'd']);
            AllocType::Contiguous
        }
    }

    /// The mode named by `mode`, compared after lower-casing; anything else means contiguous.
    pub fn from_name(mode: &str) -> (m: AllocType)
        ensures
            m == mode_named(lowercase(mode@)),
    {
        let lower = to_lower(mode);
        AllocType::from_lowercase_name(lower.as_str())
    }
}

impl DiskManager {
    /// File names are distinct and every block a file uses is on the disk.
    pub open spec fn wf(&self) -> bool {
        &&& self.disk@.len() == DISK_SIZE
        &&& layout_ok(self.disk@, self.files@)
        &&& forall|i: int, j: int|
            0 <= i < j < self.files@.len() ==> (#[trigger] self.files@[i]).name@ != (#[trigger] self.files@[j]).name@
        &&& forall|k: int, i: int|
            0 <= k < self.files@.len() && 0 <= i < self.files@[k].blocks@.len() ==> #[trigger] self.files@[k].blocks@[i]
                < self.disk@.len()
        &&& forall|k: int|
            0 <= k < self.files@.len() ==> ((#[trigger] self.files@[k]).index_block matches Some(ib) ==> ib
                < self.disk@.len())
    }

    pub fn new() -> (d: DiskManager)
        ensures
            d.wf(),
            d.disk@ == Seq::new(DISK_SIZE as nat, |i: int| false),
            d.files@ == Seq::<FileEntry>::empty(),
            d.alloc_mode is None,
    {
        DiskManager { disk: fresh_disk(), files: Vec::new(), alloc_mode: None }
    }
}

proof fn lemma_first_run_unique(disk: Seq<bool>, a: int, b: int, size: int)
    requires
        is_first_run(disk, a, size),
        is_first_run(disk, b, size),
    ensures
        a == b,
{
    if a < b {
        assert(!run_fits(disk, a, size));
    } else if b < a {
        assert(!run_fits(disk, b, size));
    }
}

/// A free run exists, so the lowest one is well defined.
proof fn lemma_first_run_exists(disk: Seq<bool>, s: int, size: int)
    requires
        run_fits(disk, s, size),
    ensures
        exists|c: int| is_first_run(disk, c, size),
    decreases s,
{
    if exists|t: int| 0 <= t < s && run_fits(disk, t, size) {
        let t = choose|t: int| 0 <= t < s && run_fits(disk, t, size);
        lemma_first_run_exists(disk, t, size);
    } else {
        assert(is_first_run(disk, s, size));
    }
}

proof fn lemma_free_blocks(disk: Seq<bool>)
    requires
        disk.len() <= usize::MAX,
    ensures
        free_blocks(disk).len() <= disk.len(),
        forall|k: int|
            0 <= k < free_blocks(disk).len() ==> #[trigger] free_blocks(disk)[k] < disk.len()
                && !disk[free_blocks(disk)[k] as int],
        forall|b: int| 0 <= b < disk.len() && !disk[b] ==> free_blocks(disk).contains(b as usize),
    decreases disk.len(),
{
    if disk.len() > 0 {
        lemma_free_blocks(disk.drop_last());
        let prev = free_blocks(disk.drop_last());
        assert forall|k: int| 0 <= k < free_blocks(disk).len() implies #[trigger] free_blocks(disk)[k] < disk.len()
            && !disk[free_blocks(disk)[k] as int] by {
            if k < prev.len() {
                assert(free_blocks(disk)[k] == prev[k]);
            }
        }
        assert forall|b: int| 0 <= b < disk.len() && !disk[b] implies free_blocks(disk).contains(b as usize) by {
            if b < disk.len() - 1 {
                assert(!disk.drop_last()[b]);
                let k = choose|k: int| 0 <= k < prev.len() && prev[k] == b as usize;
                if !disk.last() {
                    assert(free_blocks(disk)[k] == b as usize);
                } else {
                    assert(free_blocks(disk)[k] == b as usize);
                }
            } else {
                assert(free_blocks(disk)[free_blocks(disk).len() - 1] == b as usize);
            }
        }
    }
}

proof fn lemma_free_blocks_prefix(disk: Seq<bool>, i: int, j: int)
    requires
        0 <= i <= j <= disk.len(),
    ensures
        free_blocks(disk.take(i)).len() <= free_blocks(disk.take(j)).len(),
        free_blocks(disk.take(j)).take(free_blocks(disk.take(i)).len() as int) == free_blocks(disk.take(i)),
    decreases j - i,
{
    if i < j {
        lemma_free_blocks_prefix(disk, i, j - 1);
        assert(disk.take(j).drop_last() =~= disk.take(j - 1));
        let a = free_blocks(disk.take(i));
        let b = free_blocks(disk.take(j - 1));
        if !disk.take(j).last() {
            assert(b.push((j - 1) as usize).take(a.len() as int) =~= b.take(a.len() as int));
        }
    } else {
        assert(free_blocks(disk.take(i)).take(free_blocks(disk.take(i)).len() as int) =~= free_blocks(disk.take(i)));
    }
}

/// The lowest `limit` free blocks (all of them when there are fewer).
fn collect_free(disk: &Vec<bool>, limit: usize) -> (r: Vec<usize>)
    ensures
        free_blocks(disk@).len() >= limit ==> r@ == free_blocks(disk@).take(limit as int),
        free_blocks(disk@).len() < limit ==> r@ == free_blocks(disk@),
{
    let ghost d = disk@;
    let mut r: Vec<usize> = Vec::new();
    let mut i: usize = 0;
    proof {
        assert(d.take(0) =~= Seq::<bool>::empty());
    }
    while i < disk.len() && r.len() < limit
        invariant
            d == disk@,
            i <= d.len(),
            r.len() <= limit,
            r@ == free_blocks(d.take(i as int)),
        decreases d.len() - i,
    {
        proof {
            assert(d.take(i + 1).drop_last() =~= d.take(i as int));
        }
        if !disk[i] {
            r.push(i);
        }
        i = i + 1;
    }
    proof {
        lemma_free_blocks_prefix(d, i as int, d.len() as int);
        assert(d.take(d.len() as int) =~= d);
        if r.len() < limit {
            assert(i == d.len());
        }
    }
    r
}

impl DiskManager {
    /// The lowest start of `size` consecutive free blocks.
    fn find_contiguous(&self, size: usize) -> (r: Option<usize>)
        ensures
            r matches Some(s) ==> contiguous_start(self.disk@, size as int) == Some(s as int) && is_first_run(
                self.disk@,
                s as int,
                size as int,
            ),
            r is None ==> contiguous_start(self.disk@, size as int) is None,
    {
        let ghost d = self.disk@;
        if size == 0 {
            return None;
        }
        let mut count: usize = 0;
        let mut start: usize = 0;
        let mut i: usize = 0;
        while i < self.disk.len()
            invariant
                d == self.disk@,
                size >= 1,
                i <= d.len(),
                count < size,
                count <= i,
                start + count == i,
                forall|b: int| i - count <= b < i ==> !#[trigger] d[b],
                count < i ==> d[i - count - 1],
                forall|s: int| 0 <= s && s + size <= i ==> !#[trigger] run_fits(d, s, size as int),
            decreases d.len() - i,
        {
            if !self.disk[i] {
                if count == 0 {
                    start = i;
                }
                count = count + 1;
                if count == size {
                    proof {
                        assert(run_fits(d, start as int, size as int));
                        assert(is_first_run(d, start as int, size as int));
                        let c = choose|c: int| is_first_run(d, c, size as int);
                        lemma_first_run_unique(d, c, start as int, size as int);
                    }
                    return Some(start);
                }
                proof {
                    assert forall|s: int| 0 <= s && s + size <= i + 1 implies !#[trigger] run_fits(d, s, size as int) by {
                        if s + size == i + 1 {
                            assert(d[i - count]);
                        }
                    }
                }
            } else {
                proof {
                    assert forall|s: int| 0 <= s && s + size <= i + 1 implies !#[trigger] run_fits(d, s, size as int) by {
                        if s + size == i + 1 {
                            assert(d[i as int]);
                        }
                    }
                }
                count = 0;
                start = i + 1;
            }
            i = i + 1;
        }
        proof {
            if exists|s: int| run_fits(d, s, size as int) {
                let s = choose|s: int| run_fits(d, s, size as int);
                assert(!run_fits(d, s, size as int));
            }
        }
        None
    }
}

impl DiskManager {
    /// The position of the first file called `name`, if any.
    fn find_file(&self, name: &str) -> (r: Option<usize>)
        ensures
            r matches Some(k) ==> is_file_index(self.files@, name@, k as int) && file_index(self.files@, name@) == k,
            r is None ==> !has_file(self.files@, name@),
    {
        let key = name.to_owned();
        let mut k: usize = 0;
        while k < self.files.len()
            invariant
                key@ == name@,
                k <= self.files@.len(),
                forall|j: int| 0 <= j < k ==> (#[trigger] self.files@[j]).name@ != name@,
            decreases self.files@.len() - k,
        {
            if self.files[k].name == key {
                proof {
                    assert(is_file_index(self.files@, name@, k as int));
                    let c = choose|c: int| is_file_index(self.files@, name@, c);
                    if c < k {
                        assert(self.files@[c].name@ != name@);
                    } else if c > k {
                        assert(self.files@[k as int].name@ != name@);
                    }
                }
                return Some(k);
            }
            k = k + 1;
        }
        None
    }

    /// Marks `blocks` (and the index block, if any) used and records the file.
    fn place(&mut self, name: &str, mode: AllocType, blocks: Vec<usize>, index_block: Option<usize>)
        requires
            forall|k: int| 0 <= k < blocks@.len() ==> #[trigger] blocks@[k] < old(self).disk@.len(),
            index_block matches Some(ib) ==> ib < old(self).disk@.len(),
        ensures
            final(self).disk@ == occupy(old(self).disk@, Placement { blocks: blocks@, index_block }),
            file_added(old(self).files@, final(self).files@, name@, mode, Placement { blocks: blocks@, index_block }),
            final(self).alloc_mode == old(self).alloc_mode,
    {
        let ghost d = self.disk@;
        let ghost p = Placement { blocks: blocks@, index_block };
        assert(d.len() == self.disk.len());
        let mut k: usize = 0;
        while k < blocks.len()
            invariant
                d.len() <= usize::MAX,
                k <= blocks@.len(),
                self.disk@.len() == d.len(),
                self.alloc_mode == old(self).alloc_mode,
                self.files@ == old(self).files@,
                forall|j: int| 0 <= j < blocks@.len() ==> #[trigger] blocks@[j] < d.len(),
                forall|b: int|
                    0 <= b < d.len() ==> #[trigger] self.disk@[b] == (d[b] || blocks@.take(k as int).contains(b as usize)),
            decreases blocks@.len() - k,
        {
            let ghost before = self.disk@;
            self.disk.set(blocks[k], true);
            proof {
                assert forall|b: int| 0 <= b < d.len() implies #[trigger] self.disk@[b] == (d[b] || blocks@.take(k + 1).contains(
                    b as usize,
                )) by {
                    let t0 = blocks@.take(k as int);
                    let t1 = blocks@.take(k + 1);
                    if t0.contains(b as usize) {
                        let w = choose|w: int| 0 <= w < t0.len() && t0[w] == b as usize;
                        assert(t1[w] == b as usize);
                    }
                    if t1.contains(b as usize) && !t0.contains(b as usize) {
                        let w = choose|w: int| 0 <= w < t1.len() && t1[w] == b as usize;
                        if w < k {
                            assert(t0[w] == b as usize);
                        }
                    }
                    if b == blocks@[k as int] {
                        assert(t1[k as int] == b as usize);
                    }
                }
            }
            k = k + 1;
        }
        if let Some(ib) = index_block {
            self.disk.set(ib, true);
        }
        proof {
            assert(blocks@.take(blocks@.len() as int) =~= blocks@);
            assert(self.disk@ =~= occupy(d, p));
        }
        self.files.push(FileEntry { name: name.to_owned(), alloc_type: mode, blocks, index_block });
        proof {
            assert(self.files@.subrange(0, old(self).files@.len() as int) =~= old(self).files@);
        }
    }

    fn create_contiguous(&mut self, name: &str, size: usize) -> (r: Result<(), DiskError>)
        ensures
            final(self).alloc_mode == old(self).alloc_mode,
            match plan(old(self).disk@, AllocType::Contiguous, size as int) {
                Err(e) => r == Err::<(), DiskError>(e) && final(self).disk@ == old(self).disk@ && final(self).files@
                    == old(self).files@,
                Ok(p) => r == Ok::<(), DiskError>(()) && final(self).disk@ == occupy(old(self).disk@, p) && file_added(
                    old(self).files@,
                    final(self).files@,
                    name@,
                    AllocType::Contiguous,
                    p,
                ),
            },
    {
        let start = match self.find_contiguous(size) {
            Some(s) => s,
            None => {
                return Err(DiskError::NoContiguousSpace { size });
            },
        };
        let ghost d = self.disk@;
        assert(d.len() == self.disk.len());
        let end = start + size;
        let mut blocks: Vec<usize> = Vec::new();
        let mut b: usize = start;
        while b < end
            invariant
                end == start + size,
                start <= b <= start + size,
                start + size <= d.len(),
                blocks@ == Seq::new((b - start) as nat, |i: int| (start + i) as usize),
            decreases start + size - b,
        {
            blocks.push(b);
            b = b + 1;
            assert(blocks@ =~= Seq::new((b - start) as nat, |i: int| (start + i) as usize));
        }
        self.place(name, AllocType::Contiguous, blocks, None);
        Ok(())
    }

    fn create_linked(&mut self, name: &str, size: usize) -> (r: Result<(), DiskError>)
        ensures
            final(self).alloc_mode == old(self).alloc_mode,
            match plan(old(self).disk@, AllocType::Linked, size as int) {
                Err(e) => r == Err::<(), DiskError>(e) && final(self).disk@ == old(self).disk@ && final(self).files@
                    == old(self).files@,
                Ok(p) => r == Ok::<(), DiskError>(()) && final(self).disk@ == occupy(old(self).disk@, p) && file_added(
                    old(self).files@,
                    final(self).files@,
                    name@,
                    AllocType::Linked,
                    p,
                ),
            },
    {
        let free = collect_free(&self.disk, size);
        if free.len() < size {
            return Err(DiskError::NotEnoughBlocks { need: size, available: free.len() });
        }
        proof {
            assert(self.disk@.len() == self.disk.len());
            lemma_free_blocks(self.disk@);
        }
        self.place(name, AllocType::Linked, free, None);
        Ok(())
    }

    fn create_indexed(&mut self, name: &str, size: usize) -> (r: Result<(), DiskError>)
        requires
            size < usize::MAX,
        ensures
            final(self).alloc_mode == old(self).alloc_mode,
            match plan(old(self).disk@, AllocType::Indexed, size as int) {
                Err(e) => r == Err::<(), DiskError>(e) && final(self).disk@ == old(self).disk@ && final(self).files@
                    == old(self).files@,
                Ok(p) => r == Ok::<(), DiskError>(()) && final(self).disk@ == occupy(old(self).disk@, p) && file_added(
                    old(self).files@,
                    final(self).files@,
                    name@,
                    AllocType::Indexed,
                    p,
                ),
            },
    {
        let free = collect_free(&self.disk, size + 1);
        if free.len() < size + 1 {
            return Err(DiskError::NotEnoughBlocks { need: size + 1, available: free.len() });
        }
        proof {
            assert(self.disk@.len() == self.disk.len());
            lemma_free_blocks(self.disk@);
        }
        let index_block = free[0];
        let mut data: Vec<usize> = Vec::new();
        let mut k: usize = 1;
        while k < free.len()
            invariant
                1 <= k <= free@.len(),
                data@ == free@.subrange(1, k as int),
            decreases free@.len() - k,
        {
            data.push(free[k]);
            k = k + 1;
            assert(data@ =~= free@.subrange(1, k as int));
        }
        proof {
            assert(free@.subrange(1, size + 1) =~= free_blocks(self.disk@).subrange(1, size + 1));
        }
        self.place(name, AllocType::Indexed, data, Some(index_block));
        Ok(())
    }

    /// Creates a file of `size` blocks under the current allocation mode (contiguous when none).
    pub fn create(&mut self, name: &str, size: usize) -> (r: Result<(), DiskError>)
        requires
            !has_file(old(self).files@, name@) && mode_or_default(old(self).alloc_mode) == AllocType::Indexed ==> size
                < usize::MAX,
        ensures
            final(self).alloc_mode == old(self).alloc_mode,
            old(self).wf() ==> final(self).wf(),
            has_file(old(self).files@, name@) ==> r == Err::<(), DiskError>(DiskError::AlreadyExists)
                && final(self).disk@ == old(self).disk@ && final(self).files@ == old(self).files@,
            !has_file(old(self).files@, name@) ==> match plan(
                old(self).disk@,
                mode_or_default(old(self).alloc_mode),
                size as int,
            ) {
                Err(e) => r == Err::<(), DiskError>(e) && final(self).disk@ == old(self).disk@ && final(self).files@
                    == old(self).files@,
                Ok(p) => r == Ok::<(), DiskError>(()) && final(self).disk@ == occupy(old(self).disk@, p) && file_added(
                    old(self).files@,
                    final(self).files@,
                    name@,
                    mode_or_default(old(self).alloc_mode),
                    p,
                ),
            },
    {
        if self.find_file(name).is_some() {
            return Err(DiskError::AlreadyExists);
        }
        let mode = match self.alloc_mode {
            Some(m) => m,
            None => AllocType::Contiguous,
        };
        let ghost old_self = *self;
        let r = match mode {
            AllocType::Contiguous => self.create_contiguous(name, size),
            AllocType::Linked => self.create_linked(name, size),
            AllocType::Indexed => self.create_indexed(name, size),
        };
        proof {
            if old_self.wf() {
                self.lemma_created_wf(old_self, name@, mode, size as int);
            }
        }
        r
    }

    proof fn lemma_created_wf(&self, old_self: DiskManager, name: Seq<char>, mode: AllocType, size: int)
        requires
            old_self.wf(),
            !has_file(old_self.files@, name),
            size >= 0,
            match plan(old_self.disk@, mode, size) {
                Err(e) => self.disk@ == old_self.disk@ && self.files@ == old_self.files@,
                Ok(p) => self.disk@ == occupy(old_self.disk@, p) && file_added(old_self.files@, self.files@, name, mode, p),
            },
        ensures
            self.wf(),
    {
        let d = old_self.disk@;
        assert(d.len() == old_self.disk.len());
        lemma_free_blocks(d);
        if plan(d, mode, size) is Ok {
            law_create_keeps_layout(d, old_self.files@, self.files@, name, mode, size);
        }
        match plan(d, mode, size) {
            Err(e) => {},
            Ok(p) => {
                let n = old_self.files@.len();
                assert forall|k: int| 0 <= k < n implies self.files@[k] == old_self.files@[k] by {
                    assert(self.files@.subrange(0, n as int)[k] == self.files@[k]);
                }
                assert forall|i: int, j: int| 0 <= i < j < self.files@.len() implies (#[trigger] self.files@[i]).name@
                    != (#[trigger] self.files@[j]).name@ by {
                    if j == n {
                        assert(old_self.files@[i].name@ != name);
                    }
                }
                if mode == AllocType::Contiguous {
                    let w = choose|w: int| run_fits(d, w, size);
                    lemma_first_run_exists(d, w, size);
                    let c = choose|c: int| is_first_run(d, c, size);
                    assert(is_first_run(d, c, size));
                }
                assert forall|k: int, i: int|
                    0 <= k < self.files@.len() && 0 <= i < self.files@[k].blocks@.len() implies #[trigger] self.files@[k].blocks@[i]
                        < self.disk@.len() by {
                    if k == n {
                        assert(p.blocks[i] == self.files@[k].blocks@[i]);
                    }
                }
            },
        }
    }
}

impl DiskManager {
    /// Removes the file called `name` and frees its blocks.
    pub fn delete(&mut self, name: &str) -> (r: Result<(), DiskError>)
        requires
            old(self).wf(),
        ensures
            final(self).wf(),
            final(self).alloc_mode == old(self).alloc_mode,
            !has_file(old(self).files@, name@) ==> r == Err::<(), DiskError>(DiskError::NotFound)
                && final(self).disk@ == old(self).disk@ && final(self).files@ == old(self).files@,
            has_file(old(self).files@, name@) ==> {
                let k = file_index(old(self).files@, name@);
                &&& r == Ok::<(), DiskError>(())
                &&& final(self).files@ == old(self).files@.remove(k)
                &&& final(self).disk@ == vacate(old(self).disk@, old(self).files@[k])
            },
    {
        let k = match self.find_file(name) {
            Some(k) => k,
            None => {
                return Err(DiskError::NotFound);
            },
        };
        let ghost d = self.disk@;
        let ghost fs = self.files@;
        assert(d.len() == self.disk.len());
        let entry = self.files.remove(k);
        proof {
            assert(entry == fs[k as int]);
        }
        let mut i: usize = 0;
        while i < entry.blocks.len()
            invariant
                d.len() <= usize::MAX,
                i <= entry.blocks@.len(),
                self.disk@.len() == d.len(),
                entry == fs[k as int],
                self.files@ == fs.remove(k as int),
                self.alloc_mode == old(self).alloc_mode,
                forall|j: int| 0 <= j < entry.blocks@.len() ==> #[trigger] entry.blocks@[j] < d.len(),
                forall|b: int|
                    0 <= b < d.len() ==> #[trigger] self.disk@[b] == (d[b] && !entry.blocks@.take(i as int).contains(b as usize)),
            decreases entry.blocks@.len() - i,
        {
            let ghost before = self.disk@;
            self.disk.set(entry.blocks[i], false);
            proof {
                assert forall|b: int| 0 <= b < d.len() implies #[trigger] self.disk@[b] == (d[b] && !entry.blocks@.take(i + 1).contains(
                    b as usize,
                )) by {
                    let t0 = entry.blocks@.take(i as int);
                    let t1 = entry.blocks@.take(i + 1);
                    if t0.contains(b as usize) {
                        let w = choose|w: int| 0 <= w < t0.len() && t0[w] == b as usize;
                        assert(t1[w] == b as usize);
                    }
                    if t1.contains(b as usize) && !t0.contains(b as usize) {
                        let w = choose|w: int| 0 <= w < t1.len() && t1[w] == b as usize;
                        if w < i {
                            assert(t0[w] == b as usize);
                        }
                    }
                    if b == entry.blocks@[i as int] {
                        assert(t1[i as int] == b as usize);
                    }
                }
            }
            i = i + 1;
        }
        if let Some(ib) = entry.index_block {
            self.disk.set(ib, false);
        }
        proof {
            assert(entry.blocks@.take(entry.blocks@.len() as int) =~= entry.blocks@);
            assert(self.disk@ =~= vacate(d, entry));
            law_delete_keeps_layout(d, fs, k as int);
            assert forall|a: int, b: int| 0 <= a < b < self.files@.len() implies (#[trigger] self.files@[a]).name@
                != (#[trigger] self.files@[b]).name@ by {
                let a2 = if a < k { a } else { a + 1 };
                let b2 = if b < k { b } else { b + 1 };
                assert(self.files@[a] == fs[a2]);
                assert(self.files@[b] == fs[b2]);
            }
            assert forall|j: int, i2: int|
                0 <= j < self.files@.len() && 0 <= i2 < self.files@[j].blocks@.len() implies #[trigger] self.files@[j].blocks@[i2]
                    < self.disk@.len() by {
                let j2 = if j < k { j } else { j + 1 };
                assert(self.files@[j] == fs[j2]);
                assert(fs[j2].blocks@[i2] < d.len());
            }
            assert forall|j: int|
                0 <= j < self.files@.len() implies ((#[trigger] self.files@[j]).index_block matches Some(ib) ==> ib
                    < self.disk@.len()) by {
                let j2 = if j < k { j } else { j + 1 };
                assert(self.files@[j] == fs[j2]);
            }
        }
        Ok(())
    }

    /// The file called `name`.
    pub fn map(&self, name: &str) -> (r: Result<&FileEntry, DiskError>)
        ensures
            !has_file(self.files@, name@) ==> r == Err::<&FileEntry, DiskError>(DiskError::NotFound),
            has_file(self.files@, name@) ==> r == Ok::<&FileEntry, DiskError>(
                &self.files@[file_index(self.files@, name@)],
            ),
    {
        match self.find_file(name) {
            Some(k) => Ok(&self.files[k]),
            None => Err(DiskError::NotFound),
        }
    }

    /// Number of free blocks.
    pub fn free_count(&self) -> (n: usize)
        ensures
            n == free_blocks(self.disk@).len(),
    {
        let ghost d = self.disk@;
        let mut n: usize = 0;
        let mut i: usize = 0;
        proof {
            assert(d.take(0) =~= Seq::<bool>::empty());
        }
        while i < self.disk.len()
            invariant
                d == self.disk@,
                i <= d.len(),
                n == free_blocks(d.take(i as int)).len(),
                n <= i,
            decreases d.len() - i,
        {
            proof {
                assert(d.take(i + 1).drop_last() =~= d.take(i as int));
            }
            if !self.disk[i] {
                n = n + 1;
            }
            i = i + 1;
        }
        assert(d.take(i as int) =~= d);
        n
    }

    /// Starts over with an empty disk and the allocation mode named by `mode`.
    pub fn init(&mut self, mode: &str)
        ensures
            final(self).wf(),
            final(self).disk@ == Seq::new(DISK_SIZE as nat, |i: int| false),
            final(self).files@ == Seq::<FileEntry>::empty(),
            final(self).alloc_mode == Some(mode_named(lowercase(mode@))),
    {
        self.disk = fresh_disk();
        self.files = Vec::new();
        self.alloc_mode = Some(AllocType::from_name(mode));
    }
}

// ───────────────────────── laws ─────────────────────────

/// File `f` uses block `b`, as a data block or as its index block.
pub open spec fn uses_block(f: FileEntry, b: int) -> bool {
    &&& 0 <= b <= usize::MAX
    &&& f.blocks@.contains(b as usize) || f.index_block == Some(b as usize)
}

/// The block map agrees with the files: a block is marked used exactly when some file
/// uses it, no two files share a block, and no file lists a block twice.
pub open spec fn layout_ok(disk: Seq<bool>, files: Seq<FileEntry>) -> bool {
    &&& forall|b: int| 0 <= b < disk.len() ==> (#[trigger] disk[b] <==> exists|k: int| 0 <= k < files.len() && uses_block(#[trigger] files[k], b))
    &&& forall|k1: int, k2: int, b: int|
        0 <= k1 < k2 < files.len() ==> !(#[trigger] uses_block(files[k1], b) && #[trigger] uses_block(files[k2], b))
    &&& forall|k: int| 0 <= k < files.len() ==> (#[trigger] files[k]).blocks@.no_duplicates()
    &&& forall|k: int| 0 <= k < files.len() ==> ((#[trigger] files[k]).index_block matches Some(ib) ==> !files[k].blocks@.contains(ib))
    &&& forall|k: int, b: int| 0 <= k < files.len() && #[trigger] uses_block(files[k], b) ==> 0 <= b < disk.len()
}

proof fn lemma_free_blocks_increasing(disk: Seq<bool>)
    requires
        disk.len() <= usize::MAX,
    ensures
        forall|a: int, b: int|
            0 <= a < b < free_blocks(disk).len() ==> #[trigger] free_blocks(disk)[a] < #[trigger] free_blocks(disk)[b],
    decreases disk.len(),
{
    if disk.len() > 0 {
        lemma_free_blocks_increasing(disk.drop_last());
        lemma_free_blocks(disk.drop_last());
    }
}

/// A placement takes distinct free blocks of the disk, its index block apart from its data blocks.
proof fn lemma_plan_free(disk: Seq<bool>, mode: AllocType, size: int, p: Placement)
    requires
        disk.len() <= usize::MAX,
        size >= 0,
        plan(disk, mode, size) == Ok::<Placement, DiskError>(p),
    ensures
        forall|i: int| 0 <= i < p.blocks.len() ==> #[trigger] p.blocks[i] < disk.len() && !disk[p.blocks[i] as int],
        p.index_block matches Some(ib) ==> ib < disk.len() && !disk[ib as int] && !p.blocks.contains(ib),
        p.blocks.no_duplicates(),
{
    let free = free_blocks(disk);
    lemma_free_blocks(disk);
    lemma_free_blocks_increasing(disk);
    match mode {
        AllocType::Contiguous => {
            let w = choose|w: int| run_fits(disk, w, size);
            lemma_first_run_exists(disk, w, size);
            let c = choose|c: int| is_first_run(disk, c, size);
            assert(is_first_run(disk, c, size));
            assert forall|i: int| 0 <= i < p.blocks.len() implies #[trigger] p.blocks[i] < disk.len() && !disk[p.blocks[i] as int] by {
                assert(p.blocks[i] == (c + i) as usize);
            }
        },
        AllocType::Linked => {
            assert forall|i: int| 0 <= i < p.blocks.len() implies #[trigger] p.blocks[i] < disk.len() && !disk[p.blocks[i] as int] by {
                assert(p.blocks[i] == free[i]);
            }
            assert forall|a: int, b: int| 0 <= a < p.blocks.len() && 0 <= b < p.blocks.len() && a != b implies p.blocks[a] != p.blocks[b] by {
                assert(p.blocks[a] == free[a] && p.blocks[b] == free[b]);
            }
        },
        AllocType::Indexed => {
            assert forall|i: int| 0 <= i < p.blocks.len() implies #[trigger] p.blocks[i] < disk.len() && !disk[p.blocks[i] as int] by {
                assert(p.blocks[i] == free[i + 1]);
            }
            assert forall|a: int, b: int| 0 <= a < p.blocks.len() && 0 <= b < p.blocks.len() && a != b implies p.blocks[a] != p.blocks[b] by {
                assert(p.blocks[a] == free[a + 1] && p.blocks[b] == free[b + 1]);
            }
            if p.blocks.contains(free[0]) {
                let i = choose|i: int| 0 <= i < p.blocks.len() && p.blocks[i] == free[0];
                assert(p.blocks[i] == free[i + 1]);
            }
        },
    }
}

/// The free-block list lists every free block of the disk, and nothing else, in increasing
/// order: linked and indexed allocation take the lowest free blocks from it.
pub proof fn law_free_blocks(disk: Seq<bool>)
    requires
        disk.len() <= usize::MAX,
    ensures
        forall|k: int|
            0 <= k < free_blocks(disk).len() ==> #[trigger] free_blocks(disk)[k] < disk.len()
                && !disk[free_blocks(disk)[k] as int],
        forall|b: int| 0 <= b < disk.len() && !disk[b] ==> #[trigger] free_blocks(disk).contains(b as usize),
        forall|a: int, b: int|
            0 <= a < b < free_blocks(disk).len() ==> #[trigger] free_blocks(disk)[a] < #[trigger] free_blocks(disk)[b],
{
    lemma_free_blocks(disk);
    lemma_free_blocks_increasing(disk);
}

/// Every block from `lo` up to `hi` (excluded) is free.
pub open spec fn free_between(disk: Seq<bool>, lo: int, hi: int) -> bool {
    forall|b: int| lo <= b < hi ==> !#[trigger] disk[b]
}

/// Contiguous allocation is first fit: a file of `size` blocks gets the consecutive blocks
/// starting at the lowest block `s` such that blocks `s .. s + size - 1` all exist and are
/// free (nothing beyond them needs to be free); when no such start exists, or `size` is 0,
/// creation is refused for want of contiguous space.
pub proof fn law_contiguous_first_fit(disk: Seq<bool>, size: int)
    requires
        0 <= size <= usize::MAX,
        disk.len() <= usize::MAX,
    ensures
        match plan(disk, AllocType::Contiguous, size) {
            Ok(p) => {
                &&& size >= 1
                &&& p.index_block is None
                &&& p.blocks.len() == size
                &&& forall|i: int| 0 <= i < size ==> #[trigger] p.blocks[i] == p.blocks[0] + i
                &&& p.blocks[0] + size <= disk.len()
                &&& free_between(disk, p.blocks[0] as int, p.blocks[0] + size)
                &&& forall|t: int|
                    0 <= t < p.blocks[0] && t + size <= disk.len() ==> !#[trigger] free_between(disk, t, t + size)
            },
            Err(e) => {
                &&& e == DiskError::NoContiguousSpace { size: size as usize }
                &&& size >= 1 ==> forall|t: int|
                    0 <= t && t + size <= disk.len() ==> !#[trigger] free_between(disk, t, t + size)
            },
        },
{
    match plan(disk, AllocType::Contiguous, size) {
        Ok(p) => {
            let s = contiguous_start(disk, size)->Some_0;
            let w = choose|w: int| run_fits(disk, w, size);
            lemma_first_run_exists(disk, w, size);
            assert(is_first_run(disk, s, size));
            assert(p.blocks[0] == (s + 0) as usize);
            assert(p.blocks[0] == s);
            assert forall|i: int| 0 <= i < size implies #[trigger] p.blocks[i] == p.blocks[0] + i by {
                assert(p.blocks[i] == (s + i) as usize);
            }
            assert forall|t: int| 0 <= t < p.blocks[0] && t + size <= disk.len() implies !#[trigger] free_between(
                disk,
                t,
                t + size,
            ) by {
                assert(!run_fits(disk, t, size));
            }
        },
        Err(e) => {
            assert forall|t: int| size >= 1 && 0 <= t && t + size <= disk.len() implies !#[trigger] free_between(
                disk,
                t,
                t + size,
            ) by {
                if free_between(disk, t, t + size) {
                    assert(run_fits(disk, t, size));
                }
            }
        },
    }
}

/// Deleting a file right after creating it gives back the disk and the file list as they were.
pub proof fn law_delete_undoes_create(
    disk: Seq<bool>,
    files: Seq<FileEntry>,
    files_after: Seq<FileEntry>,
    name: Seq<char>,
    mode: AllocType,
    size: int,
)
    requires
        disk.len() == DISK_SIZE,
        size >= 0,
        !has_file(files, name),
        plan(disk, mode, size) is Ok,
        file_added(files, files_after, name, mode, plan(disk, mode, size)->Ok_0),
    ensures
        has_file(files_after, name),
        file_index(files_after, name) == files.len(),
        files_after.remove(files.len() as int) == files,
        vacate(occupy(disk, plan(disk, mode, size)->Ok_0), files_after[files.len() as int]) == disk,
{
    let p = plan(disk, mode, size)->Ok_0;
    let n = files.len() as int;
    lemma_plan_free(disk, mode, size, p);
    assert forall|j: int| 0 <= j < n implies files_after[j] == files[j] by {
        assert(files_after.subrange(0, n)[j] == files_after[j]);
    }
    assert(is_file_index(files_after, name, n)) by {
        assert forall|j: int| 0 <= j < n implies (#[trigger] files_after[j]).name@ != name by {
            if files_after[j].name@ == name {
                assert(files[j].name@ == name);
            }
        }
    }
    let c = file_index(files_after, name);
    assert(is_file_index(files_after, name, c));
    if c < n {
        assert(files[c].name@ == name);
    }
    assert(files_after.remove(n) =~= files);
    let f = files_after[n];
    let d2 = vacate(occupy(disk, p), f);
    assert forall|b: int| 0 <= b < disk.len() implies d2[b] == disk[b] by {
        if p.blocks.contains(b as usize) {
            let i = choose|i: int| 0 <= i < p.blocks.len() && p.blocks[i] == b as usize;
            assert(!disk[p.blocks[i] as int]);
        }
    }
    assert(d2 =~= disk);
}

/// Creating a file keeps the block map in agreement with the files.
pub proof fn law_create_keeps_layout(
    disk: Seq<bool>,
    files: Seq<FileEntry>,
    files_after: Seq<FileEntry>,
    name: Seq<char>,
    mode: AllocType,
    size: int,
)
    requires
        disk.len() == DISK_SIZE,
        size >= 0,
        layout_ok(disk, files),
        plan(disk, mode, size) is Ok,
        file_added(files, files_after, name, mode, plan(disk, mode, size)->Ok_0),
    ensures
        layout_ok(occupy(disk, plan(disk, mode, size)->Ok_0), files_after),
{
    let p = plan(disk, mode, size)->Ok_0;
    let n = files.len() as int;
    let d2 = occupy(disk, p);
    lemma_plan_free(disk, mode, size, p);
    assert forall|j: int| 0 <= j < n implies files_after[j] == files[j] by {
        assert(files_after.subrange(0, n)[j] == files_after[j]);
    }
    let f = files_after[n];
    assert forall|b: int| uses_block(f, b) implies 0 <= b < disk.len() && !disk[b] by {
        if f.blocks@.contains(b as usize) {
            let i = choose|i: int| 0 <= i < p.blocks.len() && p.blocks[i] == b as usize;
            assert(p.blocks[i] < disk.len() && !disk[p.blocks[i] as int]);
        }
    }
    assert forall|b: int| 0 <= b < d2.len() implies (#[trigger] d2[b] <==> exists|k: int|
        0 <= k < files_after.len() && uses_block(#[trigger] files_after[k], b)) by {
        if d2[b] {
            if disk[b] {
                let k = choose|k: int| 0 <= k < files.len() && uses_block(#[trigger] files[k], b);
                assert(files_after[k] == files[k]);
            } else {
                assert(uses_block(files_after[n], b));
            }
        } else {
            assert forall|k: int| 0 <= k < files_after.len() implies !uses_block(#[trigger] files_after[k], b) by {
                if k < n {
                    assert(files_after[k] == files[k]);
                }
            }
        }
    }
    assert forall|k1: int, k2: int, b: int| 0 <= k1 < k2 < files_after.len() implies !(#[trigger] uses_block(files_after[k1], b) && #[trigger] uses_block(files_after[k2], b)) by {
        assert(files_after[k1] == files[k1]);
        if k2 < n {
            assert(files_after[k2] == files[k2]);
        } else if uses_block(files[k1], b) && uses_block(f, b) {
            assert(disk[b]);
        }
    }
    assert forall|k: int| 0 <= k < files_after.len() implies (#[trigger] files_after[k]).blocks@.no_duplicates() by {
        if k < n {
            assert(files_after[k] == files[k]);
        }
    }
    assert forall|k: int| 0 <= k < files_after.len() implies ((#[trigger] files_after[k]).index_block matches Some(
        ib,
    ) ==> !files_after[k].blocks@.contains(ib)) by {
        if k < n {
            assert(files_after[k] == files[k]);
        }
    }
    assert forall|k: int, b: int| 0 <= k < files_after.len() && #[trigger] uses_block(files_after[k], b) implies 0
        <= b < d2.len() by {
        if k < n {
            assert(files_after[k] == files[k]);
        }
    }
}

/// Deleting a file keeps the block map in agreement with the remaining files.
pub proof fn law_delete_keeps_layout(disk: Seq<bool>, files: Seq<FileEntry>, k: int)
    requires
        layout_ok(disk, files),
        0 <= k < files.len(),
    ensures
        layout_ok(vacate(disk, files[k]), files.remove(k)),
{
    let d2 = vacate(disk, files[k]);
    let fs = files.remove(k);
    assert forall|j: int| 0 <= j < fs.len() implies #[trigger] fs[j] == files[if j < k { j } else { j + 1 }] by {}
    assert forall|b: int| 0 <= b < d2.len() implies (#[trigger] d2[b] <==> exists|j: int|
        0 <= j < fs.len() && uses_block(#[trigger] fs[j], b)) by {
        if d2[b] {
            let j = choose|j: int| 0 <= j < files.len() && uses_block(#[trigger] files[j], b);
            assert(j != k);
            if j < k {
                assert(fs[j] == files[j]);
            } else {
                assert(fs[j - 1] == files[j]);
            }
        } else if exists|j: int| 0 <= j < fs.len() && uses_block(#[trigger] fs[j], b) {
            let j = choose|j: int| 0 <= j < fs.len() && uses_block(#[trigger] fs[j], b);
            let jj = if j < k { j } else { j + 1 };
            assert(fs[j] == files[jj]);
            assert(disk[b]);
            assert(uses_block(files[k], b));
            if jj < k {
                assert(!(uses_block(files[jj], b) && uses_block(files[k], b)));
            } else {
                assert(!(uses_block(files[k], b) && uses_block(files[jj], b)));
            }
        }
    }
    assert forall|k1: int, k2: int, b: int| 0 <= k1 < k2 < fs.len() implies !(#[trigger] uses_block(fs[k1], b)
        && #[trigger] uses_block(fs[k2], b)) by {
        let a1 = if k1 < k { k1 } else { k1 + 1 };
        let a2 = if k2 < k { k2 } else { k2 + 1 };
        assert(fs[k1] == files[a1] && fs[k2] == files[a2]);
        assert(!(uses_block(files[a1], b) && uses_block(files[a2], b)));
    }
    assert forall|j: int| 0 <= j < fs.len() implies (#[trigger] fs[j]).blocks@.no_duplicates() by {
        let a = if j < k { j } else { j + 1 };
        assert(fs[j] == files[a]);
    }
    assert forall|j: int| 0 <= j < fs.len() implies ((#[trigger] fs[j]).index_block matches Some(ib)
        ==> !fs[j].blocks@.contains(ib)) by {
        let a = if j < k { j } else { j + 1 };
        assert(fs[j] == files[a]);
    }
    assert forall|j: int, b: int| 0 <= j < fs.len() && #[trigger] uses_block(fs[j], b) implies 0 <= b < d2.len() by {
        let a = if j < k { j } else { j + 1 };
        assert(fs[j] == files[a]);
    }
}

fn fresh_disk() -> (d: Vec<bool>)
    ensures
        d@ == Seq::new(DISK_SIZE as nat, |i: int| false),
{
    let mut d: Vec<bool> = Vec::new();
    while d.len() < DISK_SIZE
        invariant
            d.len() <= DISK_SIZE,
            forall|j: int| 0 <= j < d.len() ==> !#[trigger] d@[j],
        decreases DISK_SIZE - d.len(),
    {
        d.push(false);
    }
    assert(d@ =~= Seq::new(DISK_SIZE as nat, |i: int| false));
    d
}

} // verus!
