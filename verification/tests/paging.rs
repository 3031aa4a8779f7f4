use os_sim::page_replace::{fifo, lru, optimal, PageSummary};

fn classic() -> Vec<u32> {
    vec![7, 0, 1, 2, 0, 3, 0, 4, 2, 3, 0, 3, 2, 1, 2, 0, 1, 7, 0, 1]
}

fn check_counts(s: &PageSummary, n: usize) {
    assert_eq!(s.results.len(), n);
    assert_eq!(s.faults + s.hits, n);
    assert_eq!(s.results.iter().filter(|r| r.fault).count(), s.faults);
}

fn check_frames(s: &PageSummary, cap: usize) {
    for r in &s.results {
        assert_eq!(r.frames.len(), cap);
        assert!(r.frames.contains(&Some(r.reference)));
        let pages: Vec<u32> = r.frames.iter().filter_map(|f| *f).collect();
        for (i, a) in pages.iter().enumerate() {
            assert!(!pages[i + 1..].contains(a));
        }
    }
}

#[test]
fn fifo_classic_string() {
    let refs = classic();
    let s = fifo(3, &refs);
    assert_eq!(s.faults, 15);
    assert_eq!(s.hits, 5);
    check_counts(&s, refs.len());
    check_frames(&s, 3);
}

#[test]
fn lru_classic_string() {
    let refs = classic();
    let s = lru(3, &refs);
    assert_eq!(s.faults, 12);
    assert_eq!(s.hits, 8);
    check_counts(&s, refs.len());
    check_frames(&s, 3);
}

#[test]
fn optimal_classic_string() {
    let refs = classic();
    let s = optimal(3, &refs);
    assert_eq!(s.faults, 9);
    assert_eq!(s.hits, 11);
    check_counts(&s, refs.len());
    check_frames(&s, 3);
}

#[test]
fn fifo_shows_belady_anomaly() {
    let refs = vec![1, 2, 3, 4, 1, 2, 5, 1, 2, 3, 4, 5];
    assert_eq!(fifo(3, &refs).faults, 9);
    assert_eq!(fifo(4, &refs).faults, 10);
}

#[test]
fn fifo_replaces_the_oldest_page_in_its_slot() {
    let s = fifo(3, &[1, 2, 3, 4]);
    let last = &s.results[3];
    assert_eq!(last.frames, vec![Some(4), Some(2), Some(3)]);
    assert!(last.fault);
    assert_eq!(last.evicted, Some(1));
    assert_eq!(s.results[0].frames, vec![Some(1), None, None]);
    assert_eq!(s.results[0].evicted, None);
}

#[test]
fn hit_leaves_frames_alone() {
    let s = fifo(2, &[1, 2, 1]);
    assert!(!s.results[2].fault);
    assert_eq!(s.results[2].evicted, None);
    assert_eq!(s.results[2].frames, s.results[1].frames);
}

#[test]
fn lru_evicts_least_recently_used() {
    let s = lru(2, &[1, 2, 1, 3]);
    assert_eq!(s.results[3].frames, vec![Some(1), Some(3)]);
    assert_eq!(s.results[3].evicted, Some(2));
}

#[test]
fn optimal_evicts_page_used_furthest_ahead() {
    let s = optimal(2, &[1, 2, 3, 1]);
    assert_eq!(s.results[2].frames, vec![Some(1), Some(3)]);
    assert_eq!(s.results[2].evicted, Some(2));
}

#[test]
fn optimal_ties_go_to_the_last_frame() {
    let s = optimal(2, &[1, 2, 3]);
    assert_eq!(s.results[2].evicted, Some(2));
    assert_eq!(s.results[2].frames, vec![Some(1), Some(3)]);
}

#[test]
fn no_references_no_faults() {
    let s = lru(0, &[]);
    assert_eq!(s.faults, 0);
    assert_eq!(s.hits, 0);
    assert!(s.results.is_empty());
}

#[test]
fn lru_with_more_frames_never_faults_more() {
    let refs = vec![1, 2, 3, 4, 1, 2, 5, 1, 2, 3, 4, 5];
    assert_eq!(lru(3, &refs).faults, 10);
    assert_eq!(lru(4, &refs).faults, 8);
    let mut previous = lru(1, &refs).faults;
    for cap in 2..7 {
        let now = lru(cap, &refs).faults;
        assert!(now <= previous);
        previous = now;
    }
    let small = lru(3, &refs);
    let big = lru(4, &refs);
    for (a, b) in small.results.iter().zip(big.results.iter()) {
        for page in a.frames.iter().flatten() {
            assert!(b.frames.contains(&Some(*page)));
        }
    }
}
