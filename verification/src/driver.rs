//! The reconciliation driver: run one workload record to completion.
//! The driver advances the workload through its closed set of states —
//! Initializing, Starting, Running, then Completed or Error — invoking
//! each state's transition, publishing a status after every transition,
//! and stopping at the first terminal outcome. A record deletion
//! observed on the stream jumps straight to the terminal completion, so
//! no workload lingers in a non-terminal state.

use vstd::prelude::*;
use crate::container::ContainerState;
use crate::model::ArtifactRef;
use crate::model::ConfigData;
use crate::pod::Completed;
use crate::pod::EventView;
use crate::pod::InitEnv;
use crate::pod::Initializing;
use crate::record::PatchOp;
use crate::pod::Phase;
use crate::pod::Pod;
use crate::pod::PodError;
use crate::pod::PodState;
use crate::pod::StepEvent;
use crate::pod::ctx_for_step;
use crate::pod::first_false;
use crate::pod::first_none;
use crate::pod::names_view;
use crate::pod::spec_declared_artifacts;
use crate::pod::spec_input_step;
use crate::pod::spec_parsed_res;
use crate::pod::spec_repo_step;
use crate::pod::spec_telemetry_ok;
use crate::pod::spec_step_budget;
use crate::pod::spec_result_artifacts;
use crate::pod::spec_steps_trace;
use crate::pod::s_msg_initializing;
use crate::pod::s_msg_completed;
use crate::pod::trace_view;

verus! {

/// The status message while the workload is being started.
pub open spec fn s_msg_starting() -> Seq<u8> {
    seq![83u8, 116u8, 97u8, 114u8, 116u8, 105u8, 110u8, 103u8]
}

/// The bytes of `Starting`, as a vector.
pub fn lit_msg_starting() -> (v: Vec<u8>)
    ensures
        v@ == s_msg_starting(),
{
    let mut v: Vec<u8> = Vec::new();
    v.push(83);
    v.push(116);
    v.push(97);
    v.push(114);
    v.push(116);
    v.push(105);
    v.push(110);
    v.push(103);
    proof {
        assert(v@ =~= s_msg_starting());
    }
    v
}

/// The status message while the workload's main run executes.
pub open spec fn s_msg_running() -> Seq<u8> {
    seq![82u8, 117u8, 110u8, 110u8, 105u8, 110u8, 103u8]
}

/// The bytes of `Running`, as a vector.
pub fn lit_msg_running() -> (v: Vec<u8>)
    ensures
        v@ == s_msg_running(),
{
    let mut v: Vec<u8> = Vec::new();
    v.push(82);
    v.push(117);
    v.push(110);
    v.push(110);
    v.push(105);
    v.push(110);
    v.push(103);
    proof {
        assert(v@ =~= s_msg_running());
    }
    v
}

/// The status message of the terminal failure path.
pub open spec fn s_msg_error() -> Seq<u8> {
    seq![69u8, 114u8, 114u8, 111u8, 114u8]
}

/// The bytes of `Error`, as a vector.
pub fn lit_msg_error() -> (v: Vec<u8>)
    ensures
        v@ == s_msg_error(),
{
    let mut v: Vec<u8> = Vec::new();
    v.push(69);
    v.push(114);
    v.push(114);
    v.push(111);
    v.push(114);
    proof {
        assert(v@ =~= s_msg_error());
    }
    v
}

/// One published status: a phase and a short message.
pub struct StatusUpdate {
    pub phase: Phase,
    pub message: Vec<u8>,
}

/// What the world hands one workload run: the init inputs (including a
/// deletion observed while init steps ran), whether the record was
/// deleted while the main run was pending, the main run's outcome, the
/// result file, the upload outcomes and the patch outcome.
pub struct WorkloadEnv {
    pub init: InitEnv,
    pub deleted: bool,
    pub main_run_ok: bool,
    pub result_file: Option<Vec<u8>>,
    pub upload_refs: Vec<Option<ArtifactRef>>,
    pub patch_ok: bool,
}

/// Everything one run decided and observed: the published statuses in
/// order, the canonical input written, the degrade flags, the engine
/// events, the terminal patch and the terminal outcome.
pub struct RunReport {
    pub statuses: Vec<StatusUpdate>,
    pub input_file: Option<Vec<u8>>,
    pub warned_no_repo: bool,
    pub dropped_artifacts: bool,
    pub trace: Vec<StepEvent>,
    pub step_contexts: Vec<ContainerState>,
    pub patch: Option<PatchOp>,
    pub outcome: Result<(), PodError>,
}

/// Whether initialization runs through: a present telemetry blob
/// decodes, the input deserializes, a declared repository configuration
/// parses, every requested download succeeds (or artifacts degrade
/// without a repository), and every init step that deletion let start
/// succeeds.
pub open spec fn spec_init_ok(pod: Pod, env: InitEnv) -> bool {
    let steps_ok = first_false(env.step_ok@, spec_step_budget(pod, env))
        == spec_step_budget(pod, env);
    spec_telemetry_ok(env.config) && match spec_input_step(env.config) {
        Err(e) => false,
        Ok(oi) => match oi {
            None => steps_ok,
            Some(v) => if v.artifacts.len() == 0 {
                steps_ok
            } else {
                match spec_repo_step(env.config) {
                    Err(e) => false,
                    Ok(oc) => match oc {
                        None => steps_ok,
                        Some(rv) => first_false(env.download_ok@, v.artifacts.len() as int)
                            == v.artifacts.len() && steps_ok,
                    },
                }
            },
        },
    }
}

/// Whether the terminal collection runs through: no result is success;
/// a readable result is uploaded where handles allow and patched
/// successfully.
pub open spec fn spec_completed_ok(post: PodState, env: WorkloadEnv) -> bool {
    match env.result_file {
        None => true,
        Some(b) => match spec_parsed_res(b@) {
            None => false,
            Some(v) => if v.artifacts.len() == 0 {
                env.patch_ok
            } else if post.repo_config is None || post.workflow_name is None {
                env.patch_ok
            } else {
                first_none(env.upload_refs@, v.artifacts.len() as int) == v.artifacts.len()
                    && env.patch_ok
            },
        },
    }
}

/// Run one workload to its terminal outcome. Every run ends in exactly
/// one terminal status — Succeeded or Failed — after a sequence of
/// Running statuses, one published per transition; a record deleted
/// during the init steps or before the main run skips what remains and
/// goes straight to terminal completion. A failing init step carries
/// its name into the terminal error, and the event trace shows the
/// steps that ran, in manifest order, none after the failure or the
/// deletion.
#[verifier::loop_isolation(false)]
#[verifier::rlimit(30)]
pub fn run_workload(pod: &Pod, state: &mut PodState, env: &WorkloadEnv) -> (report: RunReport)
    requires
        old(state).backoff.wf(),
        env.init.download_ok@.len() >= spec_declared_artifacts(env.init.config),
        env.init.step_ok@.len() >= pod.init_steps@.len(),
        env.upload_refs@.len() >= spec_result_artifacts(env.result_file),
    ensures
        final(state).backoff.wf(),
        report.statuses@.len() >= 2,
        report.statuses@[0].phase == Phase::Running,
        report.statuses@[0].message@ == s_msg_initializing(),
        forall|i: int| 0 <= i < report.statuses@.len() - 1
            ==> (#[trigger] report.statuses@[i]).phase == Phase::Running,
        ({
            let last = report.statuses@[report.statuses@.len() - 1];
            match report.outcome {
                Ok(u) => last.phase == Phase::Succeeded && last.message@ == s_msg_completed(),
                Err(e) => last.phase == Phase::Failed && last.message@ == s_msg_error(),
            }
        }),
        report.outcome is Ok <==> spec_init_ok(*pod, env.init)
            && (spec_step_budget(*pod, env.init) < pod.init_steps@.len() as int || env.deleted
                || env.main_run_ok) && spec_completed_ok(*final(state), *env),
        !spec_init_ok(*pod, env.init) ==> report.patch is None,
        report.outcome matches Err(e) ==> e matches PodError::InitStepFailed(nm) ==> ({
            let names = names_view(pod.init_steps);
            let budget = spec_step_budget(*pod, env.init);
            let k = first_false(env.init.step_ok@, budget);
            k < budget && nm@ == names[k] && trace_view(report.trace) == spec_steps_trace(
                names,
                env.init.step_ok@,
                k + 1,
            )
        }),
        spec_init_ok(*pod, env.init) && spec_step_budget(*pod, env.init)
            == pod.init_steps@.len() as int ==> trace_view(report.trace) == spec_steps_trace(
            names_view(pod.init_steps),
            env.init.step_ok@,
            pod.init_steps@.len() as int,
        ) + seq![EventView::Reset],
        spec_init_ok(*pod, env.init) && spec_step_budget(*pod, env.init)
            < pod.init_steps@.len() as int ==> trace_view(report.trace) == spec_steps_trace(
            names_view(pod.init_steps),
            env.init.step_ok@,
            spec_step_budget(*pod, env.init),
        ),
        spec_init_ok(*pod, env.init) ==> report.step_contexts@.len() == spec_step_budget(
            *pod,
            env.init,
        ),
        forall|j: int| 0 <= j < report.step_contexts@.len() ==> ctx_for_step(
            #[trigger] report.step_contexts@[j],
            *pod,
            *final(state),
            names_view(pod.init_steps)[j],
        ),
{
    proof {
        let n = pod.init_steps@.len() as int;
        crate::pod::lemma_first_false(env.init.step_ok@, 0, n);
        match spec_input_step(env.init.config) {
            Ok(oi) => match oi {
                Some(v) => {
                    if v.artifacts.len() > 0 {
                        crate::pod::lemma_first_false(
                            env.init.download_ok@,
                            0,
                            v.artifacts.len() as int,
                        );
                    }
                },
                None => {},
            },
            Err(e) => {},
        }
        match &env.result_file {
            Some(b) => match spec_parsed_res(b@) {
                Some(v) => {
                    crate::pod::lemma_first_none(env.upload_refs@, 0, v.artifacts.len() as int);
                },
                None => {},
            },
            None => {},
        }
    }
    let mut statuses: Vec<StatusUpdate> = Vec::new();
    let st0 = Initializing::status();
    statuses.push(StatusUpdate { phase: st0.0, message: st0.1 });
    let init_out = Initializing::next(pod, state, &env.init);
    let input_file = init_out.input_file;
    let warned_no_repo = init_out.warned_no_repo;
    let trace = init_out.trace;
    let step_contexts = init_out.step_contexts;
    if let Err(e) = init_out.next {
        statuses.push(StatusUpdate { phase: Phase::Failed, message: lit_msg_error() });
        return RunReport {
            statuses,
            input_file,
            warned_no_repo,
            dropped_artifacts: false,
            trace,
            step_contexts,
            patch: None,
            outcome: Err(e),
        };
    }
    if !init_out.cut_by_deletion && !env.deleted {
        statuses.push(StatusUpdate { phase: Phase::Running, message: lit_msg_starting() });
        statuses.push(StatusUpdate { phase: Phase::Running, message: lit_msg_running() });
        if !env.main_run_ok {
            statuses.push(StatusUpdate { phase: Phase::Failed, message: lit_msg_error() });
            return RunReport {
                statuses,
                input_file,
                warned_no_repo,
                dropped_artifacts: false,
                trace,
                step_contexts,
                patch: None,
                outcome: Err(PodError::Execution),
            };
        }
    }
    let comp = Completed::next(state, &env.result_file, &env.upload_refs, env.patch_ok);
    match comp.next {
        Ok(u) => {
            let stc = Completed::status();
            statuses.push(StatusUpdate { phase: stc.0, message: stc.1 });
            RunReport {
                statuses,
                input_file,
                warned_no_repo,
                dropped_artifacts: comp.dropped_artifacts,
                trace,
                step_contexts,
                patch: comp.patch,
                outcome: Ok(()),
            }
        },
        Err(e) => {
            statuses.push(StatusUpdate { phase: Phase::Failed, message: lit_msg_error() });
            RunReport {
                statuses,
                input_file,
                warned_no_repo,
                dropped_artifacts: comp.dropped_artifacts,
                trace,
                step_contexts,
                patch: comp.patch,
                outcome: Err(e),
            }
        },
    }
}

} // verus!
