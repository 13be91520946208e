//! A reverse-mode automatic differentiation engine: the backward graph is
//! planned, scheduled by topological rank and evaluated with error latching
//! and completion tracking, all stated over mathematical models.

pub mod ready_queue;
pub mod graph;
pub mod input_buffer;
pub mod graph_task;
pub mod engine;
