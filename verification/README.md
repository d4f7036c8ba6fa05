# task_scheduler

A discrete-event simulator of a single-CPU priority scheduler, written in
Verus and verified.

Tasks (id, name, priority, arrival, relative deadline, duration) are read
from a CSV file or generated from a seed.  During the simulation they
arrive by arrival time into a FIFO queue, are registered in a hash table,
move into a min-heap ordered by urgency (priority, then absolute deadline,
then duration, then arrival order), and the most urgent ready task runs to
completion; a state machine tracks idle/ready/running/shutdown and counters
record waits, missed deadlines and CPU use.

Layout:

- `src/task.rs` — the task record and the stable sort by arrival time.
- `src/queue.rs` — bounded circular FIFO of task ids.
- `src/heap.rs` — bounded binary min-heap of scheduling entries.
- `src/hashtable.rs` — id → task table with chaining over a node pool.
- `src/fsm.rs` — the scheduler's state machine.
- `src/metrics.rs` — the counters.
- `src/generator.rs` — the seeded task generator.
- `src/loader.rs` — the task file format.
- `src/simulation.rs` — the simulation loop and its laws.
- `app/main.rs` — command line, file reading and printing.
- `tests/` — tests on concrete values.
