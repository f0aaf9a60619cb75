//! The container state machine: one execution unit — an init step or
//! an app step — passes Waiting → Running → Terminated, and Terminated
//! is absorbing. The enclosing driver reads the terminal outcome as the
//! step's result.

use vstd::prelude::*;

verus! {

/// Which execution unit a container machine instance drives; a key is
/// never reused across two different steps.
pub enum StepKey {
    Init(Vec<u8>),
    App(Vec<u8>),
}

/// The phases of one execution unit; `Terminated` carries whether the
/// unit succeeded.
#[derive(Clone, Copy, PartialEq, Eq, Structural, Debug)]
pub enum ContainerPhase {
    Waiting,
    Running,
    Terminated(bool),
}

/// The context a container machine instance owns: the parent workload,
/// its step key, the shared run-context, the working directory and the
/// propagated telemetry context.
pub struct ContainerState {
    pub pod_name: Vec<u8>,
    pub container_key: StepKey,
    pub run_context: u64,
    pub pod_working_dir: Vec<u8>,
    pub parent_context: Option<Vec<u8>>,
}

impl ContainerState {
    /// Build the context for one execution unit.
    pub fn new(
        pod_name: Vec<u8>,
        container_key: StepKey,
        run_context: u64,
        pod_working_dir: Vec<u8>,
        parent_context: Option<Vec<u8>>,
    ) -> (s: ContainerState)
        ensures
            s.pod_name == pod_name,
            s.container_key == container_key,
            s.run_context == run_context,
            s.pod_working_dir == pod_working_dir,
            s.parent_context == parent_context,
    {
        ContainerState { pod_name, container_key, run_context, pod_working_dir, parent_context }
    }
}

/// Where one observation takes a phase: Waiting schedules into Running;
/// Running ends as the observed exit says; Terminated absorbs.
pub open spec fn spec_container_next(p: ContainerPhase, exit_ok: bool) -> ContainerPhase {
    match p {
        ContainerPhase::Waiting => ContainerPhase::Running,
        ContainerPhase::Running => ContainerPhase::Terminated(exit_ok),
        ContainerPhase::Terminated(x) => ContainerPhase::Terminated(x),
    }
}

/// Advance one phase by one observation.
pub fn container_transition(p: ContainerPhase, exit_ok: bool) -> (n: ContainerPhase)
    ensures
        n == spec_container_next(p, exit_ok),
{
    match p {
        ContainerPhase::Waiting => ContainerPhase::Running,
        ContainerPhase::Running => ContainerPhase::Terminated(exit_ok),
        ContainerPhase::Terminated(x) => ContainerPhase::Terminated(x),
    }
}

/// Drive one execution unit from Waiting to its terminal phase, given
/// its step context and the exit outcome its run produced. The phase
/// sequence is exactly Waiting, Running, Terminated — each phase active
/// once, ending in the one terminal phase that carries the outcome. The
/// context is owned for the run and handed back unchanged when it
/// ends, so the caller can see what the unit ran with.
pub fn run_container(ctx: ContainerState, exit_ok: bool) -> (r: (ContainerState, Vec<ContainerPhase>))
    ensures
        r.0 == ctx,
        r.1@.len() == 3,
        r.1@[0] == ContainerPhase::Waiting,
        r.1@[1] == ContainerPhase::Running,
        r.1@[2] == ContainerPhase::Terminated(exit_ok),
{
    let p0 = ContainerPhase::Waiting;
    let p1 = container_transition(p0, exit_ok);
    let p2 = container_transition(p1, exit_ok);
    let mut phases: Vec<ContainerPhase> = Vec::new();
    phases.push(p0);
    phases.push(p1);
    phases.push(p2);
    (ctx, phases)
}

} // verus!
