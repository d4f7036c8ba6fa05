//! A discrete-event task scheduler: tasks arrive over time, wait in a FIFO
//! arrival queue, are moved into a min-heap ordered by urgency, and are run
//! one at a time while a hash table keeps the full record of every task.

pub mod task;
pub mod heap;
pub mod queue;
pub mod fsm;
pub mod metrics;
pub mod hashtable;
pub mod generator;
pub mod loader;
pub mod simulation;
