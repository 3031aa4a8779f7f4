use vstd::prelude::*;

verus! {

/// Life-cycle state of a process control block.
#[derive(Debug, Clone, Copy, PartialEq, Eq, Structural)]
pub enum ProcessState {
    New,
}

/// Process control block.
#[derive(Debug, Clone, Copy)]
pub struct Pcb {
    pub pid: u32,
    pub arrival_time: u32,
    pub burst_time: u32,
    pub remaining_time: u32,
    /// Lower value means higher priority.
    pub priority: u32,
    pub state: ProcessState,
}

impl Pcb {
    /// The time still to run covers the whole burst, as for every process that has not run
    /// yet (a fresh one has them equal). Waiting time is turnaround less burst, in unsigned
    /// arithmetic: a process whose remaining time is shorter than its burst can finish sooner
    /// after its arrival than its burst, and that subtraction would go below zero.
    pub open spec fn wf(&self) -> bool {
        self.burst_time <= self.remaining_time
    }

    /// A fresh process: nothing of its burst has run yet.
    pub fn new(pid: u32, arrival_time: u32, burst_time: u32, priority: u32) -> (p: Pcb)
        ensures
            p.wf(),
            p.pid == pid,
            p.arrival_time == arrival_time,
            p.burst_time == burst_time,
            p.remaining_time == burst_time,
            p.priority == priority,
            p.state == ProcessState::New,
    {
        Pcb { pid, arrival_time, burst_time, remaining_time: burst_time, priority, state: ProcessState::New }
    }
}

/// The table of processes known to the simulator; pids are handed out in order from 1.
pub struct ProcessManager {
    pub processes: Vec<Pcb>,
    /// The pid that the next `add` hands out.
    pub next_pid: u32,
}

impl ProcessManager {
    /// The processes hold pids 1, 2, 3, ... in order of registration, the next pid follows
    /// the last one, and no process has run yet.
    pub open spec fn wf(&self) -> bool {
        &&& self.next_pid == self.processes@.len() + 1
        &&& forall|i: int| 0 <= i < self.processes@.len() ==> #[trigger] self.processes@[i].pid == i + 1
        &&& forall|i: int| 0 <= i < self.processes@.len() ==> (#[trigger] self.processes@[i]).wf()
    }

    pub fn new() -> (m: ProcessManager)
        ensures
            m.wf(),
            m.processes@ == Seq::<Pcb>::empty(),
            m.next_pid == 1,
    {
        ProcessManager { processes: Vec::new(), next_pid: 1 }
    }

    /// Registers a new process under the next pid and returns that pid.
    pub fn add(&mut self, arrival_time: u32, burst_time: u32, priority: u32) -> (pid: u32)
        requires
            old(self).next_pid < u32::MAX,
        ensures
            old(self).wf() ==> final(self).wf(),
            pid == old(self).next_pid,
            final(self).next_pid == pid + 1,
            final(self).processes@ == old(self).processes@.push(
                Pcb {
                    pid,
                    arrival_time,
                    burst_time,
                    remaining_time: burst_time,
                    priority,
                    state: ProcessState::New,
                },
            ),
    {
        let pid = self.next_pid;
        self.next_pid = self.next_pid + 1;
        let pcb = Pcb::new(pid, arrival_time, burst_time, priority);
        self.processes.push(pcb);
        pid
    }

    /// Forgets every process and restarts pid numbering at 1.
    pub fn clear(&mut self)
        ensures
            final(self).wf(),
            final(self).processes@ == Seq::<Pcb>::empty(),
            final(self).next_pid == 1,
    {
        self.processes.clear();
        self.next_pid = 1;
    }
}

} // verus!
