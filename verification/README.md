# os_sim

A verified library for a small operating-system simulator, with a text shell around it.

- `src/` (verified with Verus):
  - `process` — process control blocks and the process table;
  - `scheduler` — FCFS, SJF, priority (non-preemptive) and round-robin CPU scheduling;
  - `page_replace` — FIFO, LRU and optimal page replacement;
  - `memory` — paged memory: frame allocation, address translation, freeing;
  - `disk` — contiguous, linked and indexed file allocation on a block map;
  - `deadlock`, `bankers`, `cycle` — I/O devices, requests and releases, wait-for graph
    cycle detection and the banker's safety check;
  - `order`, `sums`, `text`, `report` — stable ordering, sums, need-list parsing and the
    resource-map text.
- `app/` — the interactive shell (`main`), input parsing and all printing, averages in
  floating point.
- `tests/` — scenarios run against the compiled library.
