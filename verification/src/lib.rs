//! The core of a round-robin load balancer.
//!
//! - [`routes`] holds the route table: the registered backend servers, the
//!   status of each, and the cursor that hands them out in rotation while it
//!   passes over the ones that are stopped. [`table`] is the mathematical
//!   value that the route table stands for; [`laws`] and [`fairness`] state
//!   and prove what holds of it.
//! - [`monitor`] says what the outcome of a health probe means for the table.
//! - [`pool`] keeps the books of a pool of workers and their queue of jobs.
//! - [`dispatch`] says what is written back over a connection.
//! - [`ring_buffer`] is a bounded first-in, first-out buffer.
//!
//! Threads, sockets and timers are not part of this library: a program
//! around it performs what is decided here and reports what happened.

pub mod dispatch;
pub mod fairness;
pub mod laws;
pub mod monitor;
pub mod pool;
pub mod ring_buffer;
pub mod routes;
pub mod table;

pub use dispatch::{ends_request_head, response, Forwarding};
pub use monitor::status_after_probe;
pub use pool::{PoolCreationError, PoolEvent, PoolModel, PoolState, Rejected, WorkerStep};
pub use ring_buffer::RingBuffer;
pub use routes::Routes;
pub use table::{RouteError, RouteTable, ServerStatus};
