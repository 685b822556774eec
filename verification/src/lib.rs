//! A dense-matrix multiplication engine built around a pool of workers:
//! the dispatcher turns every output cell into one task, a deterministic
//! rule spreads the tasks over the workers' queues, and the collector
//! reassembles the answers by flat index, so the result is correct in
//! whatever order the workers finish. Shape errors and lost replies are
//! reported, never swallowed; no partial matrix is ever returned.

pub mod engine;
pub mod error;
pub mod matrix;
pub mod metrics;
