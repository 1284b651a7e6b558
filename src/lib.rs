//! A local multi-service process orchestrator: the verified core.
//!
//! The library holds the service model, the dependency-graph checks, the
//! readiness and restart rules that drive each service's lifecycle, and the
//! bookkeeping of live child processes used at shutdown. Spawning processes,
//! reading their output and handling signals are left to the caller.
pub mod config;
pub mod graph;
pub mod lifecycle;
pub mod readiness;
pub mod restart;
pub mod shutdown;
pub mod text;

