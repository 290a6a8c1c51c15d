//! A pool of single-threaded HTTP workers, modelled as verified state machines.
//!
//! The admission controller decides which worker takes a transaction and keeps
//! the per-worker in-flight counters; each worker tracks its in-flight
//! transactions, their deadlines and the results delivered for them; the pool
//! ties both together and carries the lifecycle from admission to drain.
pub mod admission;
pub mod config;
pub mod deliverable;
pub mod pool;
pub mod transaction;
pub mod worker;

pub use admission::{Admission, ErrorKind};
pub use config::{Config, StartupError};
pub use deliverable::{Deliverable, DeliveryResult, Response, TransportError};
pub use pool::{Pool, RequestError, Ticket};
pub use transaction::{Method, Request, Transaction};
pub use worker::{delivery_result, InFlight, Message, Worker};
