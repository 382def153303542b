//! Schedulability analysis for fixed-priority periodic tasks that share
//! resources under the stack resource policy: priority ceilings, blocking,
//! and busy-period response times.

pub mod common;
pub mod id_prio;
pub mod analysis;
pub mod laws;
