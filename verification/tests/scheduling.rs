use os_sim::process::{Pcb, ProcessManager, ProcessState};
use os_sim::scheduler::{fcfs, priority_scheduling, round_robin, sjf, GanttSlice, ScheduleResult};

fn sample() -> Vec<Pcb> {
    vec![Pcb::new(1, 0, 5, 2), Pcb::new(2, 1, 3, 1), Pcb::new(3, 2, 8, 0), Pcb::new(4, 3, 6, 2)]
}

fn slices(g: &[GanttSlice]) -> Vec<(u32, u32, u32)> {
    g.iter().map(|s| (s.pid, s.start, s.end)).collect()
}

fn outcomes(r: &ScheduleResult) -> Vec<(u32, u32, u32, u32)> {
    r.results.iter().map(|o| (o.pid, o.finish_time, o.turnaround_time, o.waiting_time)).collect()
}

fn check_consistent(r: &ScheduleResult) {
    for o in &r.results {
        assert_eq!(o.finish_time, o.arrival_time + o.turnaround_time);
        assert_eq!(o.turnaround_time, o.waiting_time + o.burst_time);
    }
    for w in r.gantt.windows(2) {
        assert!(w[0].end <= w[1].start);
    }
}

#[test]
fn pcb_new_starts_with_whole_burst() {
    let p = Pcb::new(7, 3, 9, 4);
    assert_eq!(p.pid, 7);
    assert_eq!(p.arrival_time, 3);
    assert_eq!(p.burst_time, 9);
    assert_eq!(p.remaining_time, 9);
    assert_eq!(p.priority, 4);
    assert_eq!(p.state, ProcessState::New);
}

#[test]
fn process_manager_hands_out_pids_in_order() {
    let mut m = ProcessManager::new();
    assert_eq!(m.add(0, 5, 1), 1);
    assert_eq!(m.add(2, 3, 1), 2);
    assert_eq!(m.add(4, 1, 1), 3);
    let pids: Vec<u32> = m.processes.iter().map(|p| p.pid).collect();
    assert_eq!(pids, vec![1, 2, 3]);
    m.clear();
    assert!(m.processes.is_empty());
    assert_eq!(m.add(1, 1, 1), 1);
}

#[test]
fn fcfs_runs_in_arrival_order() {
    let r = fcfs(&sample());
    assert_eq!(slices(&r.gantt), vec![(1, 0, 5), (2, 5, 8), (3, 8, 16), (4, 16, 22)]);
    assert_eq!(outcomes(&r), vec![(1, 5, 5, 0), (2, 8, 7, 4), (3, 16, 14, 6), (4, 22, 19, 13)]);
    assert_eq!(r.total_waiting(), 23);
    assert_eq!(r.total_turnaround(), 45);
    check_consistent(&r);
}

#[test]
fn fcfs_sorts_by_arrival_stably_and_idles() {
    let ps = vec![Pcb::new(1, 5, 1, 1), Pcb::new(2, 0, 2, 1), Pcb::new(3, 5, 2, 1)];
    let r = fcfs(&ps);
    assert_eq!(slices(&r.gantt), vec![(2, 0, 2), (1, 5, 6), (3, 6, 8)]);
    check_consistent(&r);
}

#[test]
fn sjf_picks_shortest_waiting_burst() {
    let r = sjf(&sample());
    assert_eq!(slices(&r.gantt), vec![(1, 0, 5), (2, 5, 8), (4, 8, 14), (3, 14, 22)]);
    assert_eq!(outcomes(&r), vec![(1, 5, 5, 0), (2, 8, 7, 4), (4, 14, 11, 5), (3, 22, 20, 12)]);
    check_consistent(&r);
}

#[test]
fn sjf_breaks_ties_by_position_and_jumps_idle_time() {
    let ps = vec![Pcb::new(1, 4, 3, 1), Pcb::new(2, 4, 3, 1), Pcb::new(3, 10, 1, 1)];
    let r = sjf(&ps);
    assert_eq!(slices(&r.gantt), vec![(1, 4, 7), (2, 7, 10), (3, 10, 11)]);
    check_consistent(&r);
}

#[test]
fn priority_picks_lowest_value() {
    let r = priority_scheduling(&sample());
    assert_eq!(slices(&r.gantt), vec![(1, 0, 5), (3, 5, 13), (2, 13, 16), (4, 16, 22)]);
    assert_eq!(outcomes(&r), vec![(1, 5, 5, 0), (3, 13, 11, 3), (2, 16, 15, 12), (4, 22, 19, 13)]);
    check_consistent(&r);
}

#[test]
fn round_robin_quantum_two() {
    let r = round_robin(&sample(), 2);
    assert_eq!(
        slices(&r.gantt),
        vec![
            (1, 0, 2),
            (2, 2, 4),
            (3, 4, 6),
            (1, 6, 8),
            (4, 8, 10),
            (2, 10, 11),
            (3, 11, 13),
            (1, 13, 14),
            (4, 14, 16),
            (3, 16, 18),
            (4, 18, 20),
            (3, 20, 22),
        ]
    );
    assert_eq!(outcomes(&r), vec![(1, 14, 14, 9), (2, 11, 10, 7), (3, 22, 20, 12), (4, 20, 17, 11)]);
    for s in &r.gantt {
        assert!(s.end - s.start <= 2);
    }
    check_consistent(&r);
}

#[test]
fn round_robin_jumps_to_next_arrival() {
    let ps = vec![Pcb::new(1, 0, 2, 1), Pcb::new(2, 5, 1, 1)];
    let r = round_robin(&ps, 4);
    assert_eq!(slices(&r.gantt), vec![(1, 0, 2), (2, 5, 6)]);
    assert_eq!(outcomes(&r), vec![(1, 2, 2, 0), (2, 6, 1, 0)]);
}

#[test]
fn round_robin_idles_until_the_first_arrival() {
    let ps = vec![Pcb::new(1, 2, 3, 1)];
    let r = round_robin(&ps, 2);
    assert_eq!(slices(&r.gantt), vec![(1, 2, 4), (1, 4, 5)]);
    assert_eq!(outcomes(&r), vec![(1, 5, 3, 0)]);
    let ps = vec![Pcb::new(1, 3, 2, 1), Pcb::new(2, 3, 1, 1)];
    let r = round_robin(&ps, 4);
    assert_eq!(slices(&r.gantt), vec![(1, 3, 5), (2, 5, 6)]);
}

#[test]
fn empty_process_list_gives_empty_schedules() {
    let ps: Vec<Pcb> = Vec::new();
    assert!(fcfs(&ps).gantt.is_empty());
    assert!(sjf(&ps).results.is_empty());
    assert!(priority_scheduling(&ps).gantt.is_empty());
    let r = round_robin(&ps, 0);
    assert!(r.gantt.is_empty());
    assert_eq!(r.total_waiting(), 0);
}

#[test]
fn clock_may_reach_its_limit() {
    let ps = vec![Pcb::new(1, 0, u32::MAX, 1), Pcb::new(2, u32::MAX, 0, 1)];
    let r = fcfs(&ps);
    assert_eq!(slices(&r.gantt), vec![(1, 0, u32::MAX), (2, u32::MAX, u32::MAX)]);
    let r = sjf(&ps);
    assert_eq!(r.gantt[1].end, u32::MAX);
    let r = round_robin(&ps, u32::MAX);
    assert_eq!(slices(&r.gantt), vec![(1, 0, u32::MAX), (2, u32::MAX, u32::MAX)]);
}
