use os_sim::disk::{AllocType, DiskError, DiskManager};
use os_sim::memory::{MemoryError, MemoryManager, PAGE_SIZE, TOTAL_FRAMES};

fn pfns(r: &Result<Vec<os_sim::memory::PageTableEntry>, MemoryError>) -> Vec<(u32, u32)> {
    match r {
        Ok(es) => es.iter().map(|e| (e.vpn, e.pfn)).collect(),
        Err(e) => panic!("allocation refused: {:?}", e),
    }
}

#[test]
fn memory_starts_disabled_and_init_enables() {
    let mut m = MemoryManager::new();
    assert!(!m.enabled);
    m.init();
    assert!(m.enabled);
    assert_eq!(m.used_frames(), 0);
    assert_eq!(TOTAL_FRAMES, 256);
    assert_eq!(PAGE_SIZE, 4096);
}

#[test]
fn allocate_takes_lowest_free_frames() {
    let mut m = MemoryManager::new();
    m.init();
    assert_eq!(pfns(&m.allocate(1, 10)), vec![(0, 0), (1, 1), (2, 2)]);
    assert_eq!(pfns(&m.allocate(2, 4)), vec![(0, 3)]);
    assert_eq!(pfns(&m.allocate(3, 5)), vec![(0, 4), (1, 5)]);
    assert_eq!(m.used_frames(), 6);
}

#[test]
fn translate_reads_back_the_allocation() {
    let mut m = MemoryManager::new();
    m.init();
    let _ = m.allocate(9, 4);
    let _ = m.allocate(1, 10);
    let t = m.translate(1, 5000).unwrap();
    assert_eq!(t.vpn, 1);
    assert_eq!(t.offset, 904);
    assert_eq!(t.pfn, 2);
    assert_eq!(t.physical, 2 * 4096 + 904);
    let t0 = m.translate(1, 0).unwrap();
    assert_eq!((t0.vpn, t0.offset, t0.pfn, t0.physical), (0, 0, 1, 4096));
}

#[test]
fn translate_errors() {
    let mut m = MemoryManager::new();
    m.init();
    assert_eq!(m.translate(4, 100).unwrap_err(), MemoryError::NoPageTable { pid: 4 });
    let _ = m.allocate(4, 8);
    assert_eq!(m.translate(4, 3 * 4096).unwrap_err(), MemoryError::VpnNotFound { vpn: 3, pid: 4 });
}

#[test]
fn allocate_refuses_when_frames_run_out() {
    let mut m = MemoryManager::new();
    m.init();
    assert_eq!(
        m.allocate(1, 1025).unwrap_err(),
        MemoryError::NotEnoughFrames { needed: 257, available: 256 }
    );
    assert_eq!(m.used_frames(), 0);
    let _ = m.allocate(1, 1020);
    assert_eq!(m.used_frames(), 255);
    assert_eq!(m.allocate(2, 8).unwrap_err(), MemoryError::NotEnoughFrames { needed: 2, available: 1 });
}

#[test]
fn free_gives_frames_back() {
    let mut m = MemoryManager::new();
    m.init();
    let _ = m.allocate(1, 12);
    let _ = m.allocate(2, 4);
    assert_eq!(m.free(1), Ok(3));
    assert_eq!(m.used_frames(), 1);
    assert_eq!(pfns(&m.allocate(3, 8)), vec![(0, 0), (1, 1)]);
    assert_eq!(m.free(1), Err(MemoryError::NoPageTable { pid: 1 }));
}

#[test]
fn free_right_after_allocate_restores_usage() {
    let mut m = MemoryManager::new();
    m.init();
    let _ = m.allocate(2, 40);
    let before = m.used_frames();
    let _ = m.allocate(5, 17);
    assert_eq!(m.free(5), Ok(5));
    assert_eq!(m.used_frames(), before);
}

#[test]
fn free_releases_every_frame_of_a_reallocated_process() {
    let mut m = MemoryManager::new();
    m.init();
    let _ = m.allocate(1, 8);
    let _ = m.allocate(2, 4);
    assert_eq!(pfns(&m.allocate(1, 4)), vec![(0, 3)]);
    assert_eq!(m.used_frames(), 4);
    assert_eq!(m.free(1), Ok(3));
    assert_eq!(m.used_frames(), 1);
    assert_eq!(m.translate(2, 0).unwrap().pfn, 2);
}

#[test]
fn zero_kilobytes_gives_an_empty_table() {
    let mut m = MemoryManager::new();
    m.init();
    assert_eq!(pfns(&m.allocate(1, 0)), vec![]);
    assert_eq!(m.translate(1, 0).unwrap_err(), MemoryError::VpnNotFound { vpn: 0, pid: 1 });
}

fn blocks_of(d: &DiskManager, name: &str) -> (Vec<usize>, Option<usize>) {
    let f = d.map(name).unwrap();
    (f.blocks.clone(), f.index_block)
}

#[test]
fn disk_mode_names_are_case_insensitive() {
    assert_eq!(AllocType::from_name("LINKED"), AllocType::Linked);
    assert_eq!(AllocType::from_name("Indexed"), AllocType::Indexed);
    assert_eq!(AllocType::from_name("contiguous"), AllocType::Contiguous);
    assert_eq!(AllocType::from_name("weird"), AllocType::Contiguous);
    let mut d = DiskManager::new();
    d.init("LiNkEd");
    assert_eq!(d.alloc_mode, Some(AllocType::Linked));
}

#[test]
fn contiguous_takes_the_lowest_run_that_fits() {
    let mut d = DiskManager::new();
    d.init("contiguous");
    assert_eq!(d.free_count(), 50);
    assert_eq!(d.create("a", 5), Ok(()));
    assert_eq!(d.create("b", 3), Ok(()));
    assert_eq!(blocks_of(&d, "b"), (vec![5, 6, 7], None));
    assert_eq!(d.delete("a"), Ok(()));
    assert_eq!(d.create("c", 6), Ok(()));
    assert_eq!(blocks_of(&d, "c"), (vec![8, 9, 10, 11, 12, 13], None));
    assert_eq!(d.create("d", 4), Ok(()));
    assert_eq!(blocks_of(&d, "d"), (vec![0, 1, 2, 3], None));
    assert_eq!(d.free_count(), 50 - 3 - 6 - 4);
}

#[test]
fn contiguous_errors() {
    let mut d = DiskManager::new();
    d.init("contiguous");
    assert_eq!(d.create("x", 51), Err(DiskError::NoContiguousSpace { size: 51 }));
    assert_eq!(d.create("z", 0), Err(DiskError::NoContiguousSpace { size: 0 }));
    assert_eq!(d.create("x", 2), Ok(()));
    assert_eq!(d.create("x", 2), Err(DiskError::AlreadyExists));
    assert_eq!(d.delete("nope"), Err(DiskError::NotFound));
    assert!(matches!(d.map("nope"), Err(DiskError::NotFound)));
}

#[test]
fn linked_takes_the_lowest_free_blocks() {
    let mut d = DiskManager::new();
    d.init("linked");
    assert_eq!(d.create("a", 3), Ok(()));
    assert_eq!(d.create("b", 2), Ok(()));
    assert_eq!(d.delete("a"), Ok(()));
    assert_eq!(d.create("c", 4), Ok(()));
    assert_eq!(blocks_of(&d, "c"), (vec![0, 1, 2, 5], None));
    assert_eq!(d.map("c").unwrap().alloc_type, AllocType::Linked);
    assert_eq!(d.create("big", 45), Err(DiskError::NotEnoughBlocks { need: 45, available: 44 }));
}

#[test]
fn indexed_uses_an_index_block() {
    let mut d = DiskManager::new();
    d.init("indexed");
    assert_eq!(d.create("a", 3), Ok(()));
    assert_eq!(blocks_of(&d, "a"), (vec![1, 2, 3], Some(0)));
    assert_eq!(d.free_count(), 46);
    assert_eq!(d.create("big", 46), Err(DiskError::NotEnoughBlocks { need: 47, available: 46 }));
    assert_eq!(d.delete("a"), Ok(()));
    assert_eq!(d.free_count(), 50);
}

#[test]
fn delete_right_after_create_restores_the_disk() {
    let mut d = DiskManager::new();
    d.init("indexed");
    let _ = d.create("keep", 4);
    let disk_before = d.disk.clone();
    assert_eq!(d.create("tmp", 7), Ok(()));
    assert_eq!(d.delete("tmp"), Ok(()));
    assert_eq!(d.disk, disk_before);
    assert_eq!(d.files.len(), 1);
}

#[test]
fn disk_without_init_allocates_contiguously() {
    let mut d = DiskManager::new();
    assert_eq!(d.alloc_mode, None);
    assert_eq!(d.create("a", 2), Ok(()));
    assert_eq!(blocks_of(&d, "a"), (vec![0, 1], None));
    assert_eq!(d.map("a").unwrap().alloc_type, AllocType::Contiguous);
}

#[test]
fn init_clears_the_disk() {
    let mut d = DiskManager::new();
    d.init("linked");
    let _ = d.create("a", 9);
    d.init("indexed");
    assert_eq!(d.free_count(), 50);
    assert!(d.files.is_empty());
}

#[test]
fn lower_case_mode_names() {
    assert_eq!(AllocType::from_lowercase_name("linked"), AllocType::Linked);
    assert_eq!(AllocType::from_lowercase_name("indexed"), AllocType::Indexed);
    assert_eq!(AllocType::from_lowercase_name("contiguous"), AllocType::Contiguous);
    assert_eq!(AllocType::from_lowercase_name("LINKED"), AllocType::Contiguous);
    assert_eq!(AllocType::from_lowercase_name(""), AllocType::Contiguous);
}

#[test]
fn existing_name_is_refused_before_any_size_check() {
    let mut d = DiskManager::new();
    d.init("indexed");
    assert_eq!(d.create("a", 1), Ok(()));
    let disk_before = d.disk.clone();
    assert_eq!(d.create("a", usize::MAX), Err(DiskError::AlreadyExists));
    assert_eq!(d.disk, disk_before);
    assert_eq!(d.files.len(), 1);
}
