//! A workload-execution agent's lifecycle core, verified.
//!
//! A node agent receives declarative workload records from a control plane
//! and drives each through a lifecycle: provisioning inputs, running init
//! steps in order, executing the workload, collecting results, and
//! reporting terminal status. This crate holds the verified heart of that
//! agent: the backoff policy, the canonical input/result codec, the pod
//! and container state machines, the reconciliation driver, and the
//! idempotent record patch. All I/O (cluster API calls, artifact
//! transfer, the sandbox directory) lives outside the library and hands
//! it plain values.

pub mod backoff;
pub mod codec;
pub mod container;
pub mod driver;
pub mod model;
pub mod pod;
pub mod record;

pub use backoff::BackoffStrategy;
pub use container::ContainerState;
pub use driver::run_workload;
pub use driver::RunReport;
pub use driver::WorkloadEnv;
pub use model::Invocation;
pub use model::WorkloadResult;
pub use pod::Completed;
pub use pod::Initializing;
pub use pod::Pod;
pub use pod::PodState;
