//! A buffer-dispatch engine: a producer hands over a memory address, a length
//! and a destination; reader workers copy the bytes out, and one writer per
//! destination writes them in the order it receives them.
//!
//! This crate holds the engine's bookkeeping and decisions. The caller runs
//! the worker threads, copies the source regions and performs the writes.

pub mod channel;
pub mod config;
pub mod engine;
pub mod guarantees;
pub mod history;
pub mod ledger;
pub mod pending;
pub mod work;

pub use engine::{Closing, Delivery, Submission, TurboPipe};
pub use ledger::Ledger;
pub use work::{Frame, Work};
