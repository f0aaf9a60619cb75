//! The pod state machine: the states a workload record passes through
//! and the transition logic of its two involved states. `Initializing`
//! provisions the input, resolves artifacts and runs the init steps in
//! manifest order; `Completed` collects the result, uploads produced
//! artifacts and builds the terminal record patch. The outside work each
//! transition depends on (fetching the record, downloading, uploading,
//! patching) is handed in as plain values and outcome lists, so the
//! decisions here are verified for every outcome the outside world can
//! produce.

use vstd::prelude::*;
use crate::backoff::BackoffStrategy;
use crate::container::ContainerState;
use crate::container::StepKey;
use crate::codec::enc_invocation;
use crate::codec::is_invocation_doc;
use crate::codec::enc_repo;
use crate::codec::enc_result;
use crate::codec::copy_bytes;
use crate::codec::encode_invocation;
use crate::codec::encode_result;
use crate::codec::parse_invocation;
use crate::codec::parse_repo_config;
use crate::codec::parse_telemetry;
use crate::codec::enc_telemetry;
use crate::codec::wf_entries;
use crate::codec::parse_result;
use crate::model::ArtifactDescriptor;
use crate::model::ArtifactItem;
use crate::model::ArtifactRef;
use crate::model::ConfigData;
use crate::model::Invocation;
use crate::model::InvView;
use crate::model::ItemView;
use crate::model::RepoConfig;
use crate::model::RepoView;
use crate::model::ResView;
use crate::model::WorkloadResult;
use crate::model::entries_view;
use crate::model::EntryView;
use crate::model::items_view;
use crate::model::spec_lookup;
use crate::model::wf_inv;
use crate::model::wf_repo;
use crate::model::wf_res;
use crate::model::all_local;
use crate::model::local_desc;
use crate::model::RefView;
use crate::record::PatchOp;
use crate::record::result_patch;
use crate::record::s_result_path;

verus! {

/// The record key holding the workload's structured input.
pub open spec fn s_input_key() -> Seq<u8> {
    seq![105u8, 110u8, 112u8, 117u8, 116u8, 46u8, 106u8, 115u8, 111u8, 110u8]
}

/// The bytes of `input.json`, as a vector.
pub fn lit_input_key() -> (v: Vec<u8>)
    ensures
        v@ == s_input_key(),
{
    let mut v: Vec<u8> = Vec::new();
    v.push(105);
    v.push(110);
    v.push(112);
    v.push(117);
    v.push(116);
    v.push(46);
    v.push(106);
    v.push(115);
    v.push(111);
    v.push(110);
    proof {
        assert(v@ =~= s_input_key());
    }
    v
}

/// The record key holding the telemetry-context blob.
pub open spec fn s_otel_key() -> Seq<u8> {
    seq![111u8, 112u8, 101u8, 110u8, 116u8, 101u8, 108u8, 101u8, 109u8, 101u8, 116u8, 114u8, 121u8, 46u8, 106u8, 115u8, 111u8, 110u8]
}

/// The bytes of `opentelemetry.json`, as a vector.
pub fn lit_otel_key() -> (v: Vec<u8>)
    ensures
        v@ == s_otel_key(),
{
    let mut v: Vec<u8> = Vec::new();
    v.push(111);
    v.push(112);
    v.push(101);
    v.push(110);
    v.push(116);
    v.push(101);
    v.push(108);
    v.push(101);
    v.push(109);
    v.push(101);
    v.push(116);
    v.push(114);
    v.push(121);
    v.push(46);
    v.push(106);
    v.push(115);
    v.push(111);
    v.push(110);
    proof {
        assert(v@ =~= s_otel_key());
    }
    v
}

/// The record key holding the artifact-repository configuration.
pub open spec fn s_repo_key() -> Seq<u8> {
    seq![97u8, 114u8, 116u8, 105u8, 102u8, 97u8, 99u8, 116u8, 45u8, 114u8, 101u8, 112u8, 111u8, 45u8, 99u8, 111u8, 110u8, 102u8, 105u8, 103u8, 46u8, 106u8, 115u8, 111u8, 110u8]
}

/// The bytes of `artifact-repo-config.json`, as a vector.
pub fn lit_repo_key() -> (v: Vec<u8>)
    ensures
        v@ == s_repo_key(),
{
    let mut v: Vec<u8> = Vec::new();
    v.push(97);
    v.push(114);
    v.push(116);
    v.push(105);
    v.push(102);
    v.push(97);
    v.push(99);
    v.push(116);
    v.push(45);
    v.push(114);
    v.push(101);
    v.push(112);
    v.push(111);
    v.push(45);
    v.push(99);
    v.push(111);
    v.push(110);
    v.push(102);
    v.push(105);
    v.push(103);
    v.push(46);
    v.push(106);
    v.push(115);
    v.push(111);
    v.push(110);
    proof {
        assert(v@ =~= s_repo_key());
    }
    v
}

/// The status message while init steps run.
pub open spec fn s_msg_initializing() -> Seq<u8> {
    seq![73u8, 110u8, 105u8, 116u8, 105u8, 97u8, 108u8, 105u8, 122u8, 105u8, 110u8, 103u8]
}

/// The bytes of `Initializing`, as a vector.
pub fn lit_msg_initializing() -> (v: Vec<u8>)
    ensures
        v@ == s_msg_initializing(),
{
    let mut v: Vec<u8> = Vec::new();
    v.push(73);
    v.push(110);
    v.push(105);
    v.push(116);
    v.push(105);
    v.push(97);
    v.push(108);
    v.push(105);
    v.push(122);
    v.push(105);
    v.push(110);
    v.push(103);
    proof {
        assert(v@ =~= s_msg_initializing());
    }
    v
}

/// The status message of the terminal success path.
pub open spec fn s_msg_completed() -> Seq<u8> {
    seq![67u8, 111u8, 109u8, 112u8, 108u8, 101u8, 116u8, 101u8, 100u8]
}

/// The bytes of `Completed`, as a vector.
pub fn lit_msg_completed() -> (v: Vec<u8>)
    ensures
        v@ == s_msg_completed(),
{
    let mut v: Vec<u8> = Vec::new();
    v.push(67);
    v.push(111);
    v.push(109);
    v.push(112);
    v.push(108);
    v.push(101);
    v.push(116);
    v.push(101);
    v.push(100);
    proof {
        assert(v@ =~= s_msg_completed());
    }
    v
}

/// The status phases the control plane sees.
#[derive(Clone, Copy, PartialEq, Eq, Structural, Debug)]
pub enum Phase {
    Running,
    Succeeded,
    Failed,
}

/// Why a workload ended in the Error state.
#[derive(Debug)]
pub enum PodError {
    /// The record's telemetry-context blob is present but malformed.
    TelemetryDecode,
    /// The record's input payload is not a well-formed invocation.
    InputDeserialization,
    /// A repository configuration is present but malformed.
    ArtifactConfig,
    /// Downloading the named artifact failed.
    ArtifactDownload(Vec<u8>),
    /// The named init step ended in failure.
    InitStepFailed(Vec<u8>),
    /// The main run of the workload failed.
    Execution,
    /// The working directory's result file is present but unreadable.
    ResultRead,
    /// Uploading the named artifact failed.
    ArtifactUpload(Vec<u8>),
    /// The terminal record patch was not accepted.
    PatchFailed,
}

/// A workload record snapshot: its identity and its ordered steps.
pub struct Pod {
    pub name: Vec<u8>,
    pub namespace: Vec<u8>,
    pub init_steps: Vec<Vec<u8>>,
    pub app_steps: Vec<Vec<u8>>,
}

/// The spec-level image of a list of step names.
pub open spec fn names_view(v: Vec<Vec<u8>>) -> Seq<Seq<u8>> {
    v@.map_values(|n: Vec<u8>| n@)
}

/// The workload context: state owned by the one driver instance
/// processing this workload.
pub struct PodState {
    pub working_dir: Vec<u8>,
    pub run_context: u64,
    pub backoff: BackoffStrategy,
    pub workflow_name: Option<Vec<u8>>,
    pub repo_config: Option<RepoConfig>,
    pub parent_context: Option<Vec<u8>>,
}

/// A value read from the fetched configuration record, if the record
/// and the key are present.
pub open spec fn cfg_get(c: Option<ConfigData>, key: Seq<u8>) -> Option<Seq<u8>> {
    match c {
        None => None,
        Some(d) => spec_lookup(entries_view(d.entries), key),
    }
}

/// The invocation a byte string holds, if it is an invocation
/// document in either the canonical or the short form.
pub open spec fn spec_parsed_inv(b: Seq<u8>) -> Option<InvView> {
    if exists|v: InvView| is_invocation_doc(b, v) {
        Some(choose|v: InvView| is_invocation_doc(b, v))
    } else {
        None
    }
}

/// The repository configuration a byte string encodes, if it encodes
/// one.
pub open spec fn spec_parsed_repo(b: Seq<u8>) -> Option<RepoView> {
    if exists|v: RepoView| wf_repo(v) && b == enc_repo(v) {
        Some(choose|v: RepoView| wf_repo(v) && b == enc_repo(v))
    } else {
        None
    }
}

/// The all-local result a byte string encodes, if it encodes one.
pub open spec fn spec_parsed_res(b: Seq<u8>) -> Option<ResView> {
    if exists|v: ResView| wf_res(v) && all_local(v) && b == enc_result(v) {
        Some(choose|v: ResView| wf_res(v) && all_local(v) && b == enc_result(v))
    } else {
        None
    }
}

/// Whether the record's telemetry-context blob, if present, is a
/// well-formed map of string pairs.
pub open spec fn spec_telemetry_ok(c: Option<ConfigData>) -> bool {
    match cfg_get(c, s_otel_key()) {
        None => true,
        Some(tb) => exists|es: Seq<EntryView>| wf_entries(es) && tb == enc_telemetry(es),
    }
}

/// What reading the input from the record yields: no record or no
/// input key is "no input"; a present payload must be a well-formed
/// invocation, else the workload fails with a deserialization error.
pub open spec fn spec_input_step(c: Option<ConfigData>) -> Result<Option<InvView>, PodError> {
    match cfg_get(c, s_input_key()) {
        None => Ok(None),
        Some(bytes) => match spec_parsed_inv(bytes) {
            Some(v) => Ok(Some(v)),
            None => Err(PodError::InputDeserialization),
        },
    }
}

/// What resolving the repository configuration yields when the
/// invocation asks for artifacts: no configuration is a non-fatal
/// degrade; a present but malformed configuration is fatal.
pub open spec fn spec_repo_step(c: Option<ConfigData>) -> Result<Option<RepoView>, PodError> {
    match cfg_get(c, s_repo_key()) {
        None => Ok(None),
        Some(bytes) => match spec_parsed_repo(bytes) {
            Some(v) => Ok(Some(v)),
            None => Err(PodError::ArtifactConfig),
        },
    }
}

/// Read and deserialize the record's input payload.
pub fn read_input(config: &Option<ConfigData>) -> (r: Result<Option<Invocation>, PodError>)
    ensures
        match r {
            Ok(oi) => match oi {
                Some(inv) => spec_input_step(*config) == Ok::<Option<InvView>, PodError>(
                    Some(inv@),
                ) && wf_inv(inv@),
                None => spec_input_step(*config) == Ok::<Option<InvView>, PodError>(None),
            },
            Err(e) => spec_input_step(*config) == Err::<Option<InvView>, PodError>(
                PodError::InputDeserialization,
            ) && e is InputDeserialization,
        },
{
    let key = lit_input_key();
    let bytes = match config {
        None => {
            return Ok(None);
        },
        Some(d) => match d.get(key.as_slice()) {
            None => {
                return Ok(None);
            },
            Some(b) => b,
        },
    };
    match parse_invocation(bytes.as_slice()) {
        Some(inv) => {
            proof {
                let v0 = choose|v: InvView| is_invocation_doc(bytes@, v);
                assert(is_invocation_doc(bytes@, inv@));
                assert(v0 == inv@);
            }
            Ok(Some(inv))
        },
        None => {
            proof {
                if exists|v: InvView| is_invocation_doc(bytes@, v) {
                    let v0 = choose|v: InvView| is_invocation_doc(bytes@, v);
                    assert(!is_invocation_doc(bytes@, v0));
                }
            }
            Err(PodError::InputDeserialization)
        },
    }
}

/// Copy the telemetry-context blob out of the record, if one is there.
pub fn telemetry_of(config: &Option<ConfigData>) -> (r: Option<Vec<u8>>)
    ensures
        match r {
            Some(v) => cfg_get(*config, s_otel_key()) == Some(v@),
            None => cfg_get(*config, s_otel_key()) is None,
        },
{
    let key = lit_otel_key();
    match config {
        None => None,
        Some(d) => match d.get(key.as_slice()) {
            None => None,
            Some(b) => Some(copy_bytes(b.as_slice())),
        },
    }
}

/// Resolve the artifact-repository configuration declared in the
/// record.
pub fn resolve_repo(config: &Option<ConfigData>) -> (r: Result<Option<RepoConfig>, PodError>)
    ensures
        match r {
            Ok(oc) => match oc {
                Some(c) => spec_repo_step(*config) == Ok::<Option<RepoView>, PodError>(Some(c@))
                    && wf_repo(c@),
                None => spec_repo_step(*config) == Ok::<Option<RepoView>, PodError>(None),
            },
            Err(e) => spec_repo_step(*config) == Err::<Option<RepoView>, PodError>(
                PodError::ArtifactConfig,
            ) && e is ArtifactConfig,
        },
{
    let key = lit_repo_key();
    let bytes = match config {
        None => {
            return Ok(None);
        },
        Some(d) => match d.get(key.as_slice()) {
            None => {
                return Ok(None);
            },
            Some(b) => b,
        },
    };
    match parse_repo_config(bytes.as_slice()) {
        Some(c) => {
            proof {
                let v0 = choose|v: RepoView| wf_repo(v) && bytes@ == enc_repo(v);
                assert(wf_repo(c@) && bytes@ == enc_repo(c@));
                crate::codec::lemma_enc_repo_injective(v0, c@);
            }
            Ok(Some(c))
        },
        None => {
            proof {
                if exists|v: RepoView| wf_repo(v) && bytes@ == enc_repo(v) {
                    let v0 = choose|v: RepoView| wf_repo(v) && bytes@ == enc_repo(v);
                    assert(bytes@ != enc_repo(v0));
                }
            }
            Err(PodError::ArtifactConfig)
        },
    }
}


/// One observable engine event of a workload's init phase.
#[derive(Debug)]
pub enum StepEvent {
    BackoffReset,
    StepStarted(Vec<u8>),
    StepFinished(Vec<u8>, bool),
}

/// Spec-level image of a `StepEvent`.
pub ghost enum EventView {
    Reset,
    Started(Seq<u8>),
    Finished(Seq<u8>, bool),
}

impl View for StepEvent {
    type V = EventView;

    open spec fn view(&self) -> EventView {
        match self {
            StepEvent::BackoffReset => EventView::Reset,
            StepEvent::StepStarted(n) => EventView::Started(n@),
            StepEvent::StepFinished(n, ok) => EventView::Finished(n@, *ok),
        }
    }
}

/// The spec-level image of an event trace.
pub open spec fn trace_view(t: Vec<StepEvent>) -> Seq<EventView> {
    t@.map_values(|e: StepEvent| e@)
}

/// The events one init step run emits: a backoff reset, the start, and
/// the finish carrying the outcome.
pub open spec fn events_for(nm: Seq<u8>, ok: bool) -> Seq<EventView> {
    seq![EventView::Reset, EventView::Started(nm), EventView::Finished(nm, ok)]
}

/// The event trace of the first `upto` init steps, in manifest order.
pub open spec fn spec_steps_trace(names: Seq<Seq<u8>>, oks: Seq<bool>, upto: int) -> Seq<EventView>
    decreases upto,
{
    if upto <= 0 {
        Seq::empty()
    } else {
        spec_steps_trace(names, oks, upto - 1) + events_for(names[upto - 1], oks[upto - 1])
    }
}

/// The first index in `[i, n)` whose outcome is a failure, or `n`.
pub open spec fn first_false_from(oks: Seq<bool>, i: int, n: int) -> int
    decreases n - i,
{
    if i < 0 || i >= n {
        n
    } else if !oks[i] {
        i
    } else {
        first_false_from(oks, i + 1, n)
    }
}

/// The first failed outcome among the first `n`, or `n` when all
/// succeed.
pub open spec fn first_false(oks: Seq<bool>, n: int) -> int {
    first_false_from(oks, 0, n)
}

/// Where the first failure lies: everything before it succeeded, and it
/// failed, unless all `n` succeeded.
pub proof fn lemma_first_false(oks: Seq<bool>, i: int, n: int)
    requires
        0 <= i <= n <= oks.len(),
    ensures
        i <= first_false_from(oks, i, n) <= n,
        forall|j: int| i <= j < first_false_from(oks, i, n) ==> oks[j],
        first_false_from(oks, i, n) < n ==> !oks[first_false_from(oks, i, n)],
    decreases n - i,
{
    if i < n && oks[i] {
        lemma_first_false(oks, i + 1, n);
    }
}

/// The shape of an init trace: three events per step, a reset first, so
/// a step starts only right after a backoff reset, and only steps among
/// the first `m` ever start.
pub proof fn lemma_steps_trace_shape(names: Seq<Seq<u8>>, oks: Seq<bool>, m: int)
    requires
        0 <= m,
    ensures
        spec_steps_trace(names, oks, m).len() == 3 * m,
        forall|p: int| 0 <= p < 3 * m && (#[trigger] spec_steps_trace(names, oks, m)[p]) is Started
            ==> p > 0 && spec_steps_trace(names, oks, m)[p - 1] is Reset,
        forall|p: int| 0 <= p < 3 * m && (#[trigger] spec_steps_trace(names, oks, m)[p]) is Started
            ==> exists|j: int| 0 <= j < m
                && spec_steps_trace(names, oks, m)[p] == EventView::Started(names[j]),
    decreases m,
{
    if m > 0 {
        lemma_steps_trace_shape(names, oks, m - 1);
        let t = spec_steps_trace(names, oks, m);
        let t0 = spec_steps_trace(names, oks, m - 1);
        let e = events_for(names[m - 1], oks[m - 1]);
        assert(t == t0 + e);
        assert forall|p: int| 0 <= p < 3 * m && (#[trigger] t[p]) is Started implies p > 0
            && t[p - 1] is Reset by {
            if p < 3 * (m - 1) {
                assert(t[p] == t0[p]);
                assert(t[p - 1] == t0[p - 1]);
            } else {
                assert(t[p] == e[p - 3 * (m - 1)]);
                assert(p == 3 * (m - 1) + 1);
                assert(t[p - 1] == e[0]);
            }
        }
        assert forall|p: int| 0 <= p < 3 * m && (#[trigger] t[p]) is Started implies exists|j: int|
            0 <= j < m && t[p] == EventView::Started(names[j]) by {
            if p < 3 * (m - 1) {
                assert(t[p] == t0[p]);
                let j0 = choose|j: int| 0 <= j < m - 1 && t0[p] == EventView::Started(names[j]);
                assert(0 <= j0 < m && t[p] == EventView::Started(names[j0]));
            } else {
                assert(t[p] == e[p - 3 * (m - 1)]);
                assert(p == 3 * (m - 1) + 1);
                assert(t[p] == EventView::Started(names[m - 1]));
            }
        }
    }
}

/// Init steps run strictly in manifest order, and a failure stops the
/// workload: when step `k` is the first to fail, the run's trace starts
/// exactly the steps up to and including `k` — no later step ever
/// starts.
pub proof fn lemma_init_step_order(names: Seq<Seq<u8>>, oks: Seq<bool>, k: int)
    requires
        0 <= k < names.len(),
    ensures
        forall|p: int| 0 <= p < spec_steps_trace(names, oks, k + 1).len()
            && (#[trigger] spec_steps_trace(names, oks, k + 1)[p]) is Started
            ==> exists|j: int| 0 <= j <= k
                && spec_steps_trace(names, oks, k + 1)[p] == EventView::Started(names[j]),
{
    lemma_steps_trace_shape(names, oks, k + 1);
    assert forall|p: int| 0 <= p < spec_steps_trace(names, oks, k + 1).len()
        && (#[trigger] spec_steps_trace(names, oks, k + 1)[p]) is Started implies exists|j: int|
        0 <= j <= k && spec_steps_trace(names, oks, k + 1)[p] == EventView::Started(names[j]) by {
        let j0 = choose|j: int| 0 <= j < k + 1
            && spec_steps_trace(names, oks, k + 1)[p] == EventView::Started(names[j]);
        assert(0 <= j0 <= k);
    }
}

/// The backoff strategy is reset immediately before each init step
/// begins: in every init trace, a start event stands directly after a
/// reset event; and a freshly reset strategy's next delay is its
/// initial delay.
pub proof fn lemma_reset_before_each_step(names: Seq<Seq<u8>>, oks: Seq<bool>, m: int, s: BackoffStrategy)
    requires
        0 <= m,
        s.wf(),
    ensures
        forall|p: int| 0 <= p < spec_steps_trace(names, oks, m).len()
            && (#[trigger] spec_steps_trace(names, oks, m)[p]) is Started
            ==> p > 0 && spec_steps_trace(names, oks, m)[p - 1] is Reset,
        s.spec_reset().spec_after_draw().next_ms >= s.spec_reset().next_ms,
        s.spec_reset().next_ms == s.initial_ms,
{
    lemma_steps_trace_shape(names, oks, m);
}

/// The step context built for one init step: it names the parent
/// workload, carries the step's own key, and hands the shared
/// run-context, the working directory and the workload's adopted
/// telemetry context on into the nested driver.
pub open spec fn ctx_for_step(c: ContainerState, pod: Pod, st: PodState, name: Seq<u8>) -> bool {
    &&& c.pod_name@ == pod.name@
    &&& (c.container_key matches StepKey::Init(nm) && nm@ == name)
    &&& c.run_context == st.run_context
    &&& c.pod_working_dir@ == st.working_dir@
    &&& (match st.parent_context {
        None => c.parent_context is None,
        Some(pc) => c.parent_context matches Some(cc) && cc@ == pc@,
    })
}

/// Run the workload's init steps in manifest order: before each step
/// the backoff strategy is reset and a fresh step context is built that
/// propagates the workload's adopted telemetry context; the step's
/// container machine runs to its terminal phase; the first failure
/// aborts the rest. A deletion observed on the record stream before
/// step `d` lets steps `0..d` finish and starts none after: the run
/// returns `Ok(false)` promptly so the driver can take the workload to
/// its terminal completion. The contexts the steps ran with are
/// appended to `ctxs`, one per attempted step.
#[verifier::loop_isolation(false)]
pub fn run_init_steps(
    pod: &Pod,
    state: &mut PodState,
    outcomes: &Vec<bool>,
    deleted_before_step: Option<usize>,
    trace: &mut Vec<StepEvent>,
    ctxs: &mut Vec<ContainerState>,
) -> (r: Result<bool, PodError>)
    requires
        old(state).backoff.wf(),
        outcomes@.len() >= pod.init_steps@.len(),
    ensures
        final(state).backoff.wf(),
        final(state).working_dir == old(state).working_dir,
        final(state).run_context == old(state).run_context,
        final(state).workflow_name == old(state).workflow_name,
        final(state).repo_config == old(state).repo_config,
        final(state).parent_context == old(state).parent_context,
        final(ctxs)@.take(old(ctxs)@.len() as int) == old(ctxs)@,
        forall|q: int| old(ctxs)@.len() <= q < final(ctxs)@.len() ==> ctx_for_step(
            #[trigger] final(ctxs)@[q],
            *pod,
            *old(state),
            names_view(pod.init_steps)[q - old(ctxs)@.len()],
        ),
        ({
            let names = names_view(pod.init_steps);
            let n = pod.init_steps@.len() as int;
            let budget = (match deleted_before_step {
                None => n,
                Some(d) => if (d as int) < n {
                    d as int
                } else {
                    n
                },
            });
            let k = first_false(outcomes@, budget);
            match r {
                Ok(completed) => ({
                    &&& k == budget
                    &&& completed == (budget == n)
                    &&& if completed {
                        &&& trace_view(*final(trace)) == trace_view(*old(trace))
                            + spec_steps_trace(names, outcomes@, n) + seq![EventView::Reset]
                        &&& final(ctxs)@.len() == old(ctxs)@.len() + n
                        &&& final(state).backoff == old(state).backoff.spec_reset()
                    } else {
                        &&& trace_view(*final(trace)) == trace_view(*old(trace))
                            + spec_steps_trace(names, outcomes@, budget)
                        &&& final(ctxs)@.len() == old(ctxs)@.len() + budget
                        &&& final(state).backoff == (if budget == 0 {
                            old(state).backoff
                        } else {
                            old(state).backoff.spec_reset()
                        })
                    }
                }),
                Err(e) => k < budget && (e matches PodError::InitStepFailed(nm) && nm@ == names[k])
                    && trace_view(*final(trace)) == trace_view(*old(trace))
                        + spec_steps_trace(names, outcomes@, k + 1)
                    && final(ctxs)@.len() == old(ctxs)@.len() + k + 1
                    && final(state).backoff == old(state).backoff.spec_reset(),
            }
        }),
{
    let ghost names = names_view(pod.init_steps);
    let ghost oks = outcomes@;
    let n = pod.init_steps.len();
    let budget: usize = match deleted_before_step {
        None => n,
        Some(d) => if d < n {
            d
        } else {
            n
        },
    };
    let mut i: usize = 0;
    proof {
        lemma_first_false(oks, 0, budget as int);
        assert(trace_view(*trace) =~= trace_view(*old(trace)) + spec_steps_trace(names, oks, 0));
    }
    while i < budget
        invariant
            n == pod.init_steps@.len(),
            outcomes@ == oks,
            oks.len() >= n,
            budget <= n,
            names == names_view(pod.init_steps),
            0 <= i <= budget,
            state.backoff.wf(),
            i == 0 ==> state.backoff == old(state).backoff,
            i > 0 ==> state.backoff == old(state).backoff.spec_reset(),
            state.working_dir == old(state).working_dir,
            state.run_context == old(state).run_context,
            state.workflow_name == old(state).workflow_name,
            state.repo_config == old(state).repo_config,
            state.parent_context == old(state).parent_context,
            forall|j: int| 0 <= j < i ==> oks[j],
            first_false_from(oks, 0, budget as int) == first_false_from(
                oks,
                i as int,
                budget as int,
            ),
            trace_view(*trace) == trace_view(*old(trace)) + spec_steps_trace(names, oks, i as int),
            ctxs@.len() == old(ctxs)@.len() + i,
            ctxs@.take(old(ctxs)@.len() as int) == old(ctxs)@,
            forall|q: int| old(ctxs)@.len() <= q < ctxs@.len() ==> ctx_for_step(
                #[trigger] ctxs@[q],
                *pod,
                *old(state),
                names[q - old(ctxs)@.len()],
            ),
        decreases budget - i,
    {
        state.backoff.reset();
        trace.push(StepEvent::BackoffReset);
        trace.push(StepEvent::StepStarted(copy_bytes(pod.init_steps[i].as_slice())));
        let parent = match &state.parent_context {
            None => None,
            Some(c) => Some(copy_bytes(c.as_slice())),
        };
        let ctx = crate::container::ContainerState::new(
            copy_bytes(pod.name.as_slice()),
            crate::container::StepKey::Init(copy_bytes(pod.init_steps[i].as_slice())),
            state.run_context,
            copy_bytes(state.working_dir.as_slice()),
            parent,
        );
        let (ctx_back, phases) = crate::container::run_container(ctx, outcomes[i]);
        ctxs.push(ctx_back);
        proof {
            assert(ctxs@.take(old(ctxs)@.len() as int) =~= old(ctxs)@);
            assert(ctx_for_step(ctxs@[ctxs@.len() - 1], *pod, *old(state), names[i as int]));
        }
        let ok = match phases[2] {
            crate::container::ContainerPhase::Terminated(x) => x,
            crate::container::ContainerPhase::Waiting => {
                proof {
                    assert(false);
                }
                unreached()
            },
            crate::container::ContainerPhase::Running => {
                proof {
                    assert(false);
                }
                unreached()
            },
        };
        trace.push(StepEvent::StepFinished(copy_bytes(pod.init_steps[i].as_slice()), ok));
        proof {
            assert(trace_view(*trace) =~= trace_view(*old(trace))
                + spec_steps_trace(names, oks, i as int) + events_for(names[i as int], oks[i as int]));
            assert(trace_view(*trace) =~= trace_view(*old(trace))
                + spec_steps_trace(names, oks, i + 1));
        }
        if !ok {
            proof {
                lemma_first_false(oks, 0, budget as int);
                assert(first_false_from(oks, i as int, budget as int) == i);
            }
            return Err(PodError::InitStepFailed(copy_bytes(pod.init_steps[i].as_slice())));
        }
        proof {
            assert(first_false_from(oks, i as int, budget as int) == first_false_from(
                oks,
                i + 1,
                budget as int,
            ));
        }
        i += 1;
    }
    proof {
        assert(first_false_from(oks, budget as int, budget as int) == budget);
    }
    if budget < n {
        return Ok(false);
    }
    state.backoff.reset();
    trace.push(StepEvent::BackoffReset);
    proof {
        assert(trace_view(*trace) =~= trace_view(*old(trace))
            + spec_steps_trace(names, oks, n as int) + seq![EventView::Reset]);
    }
    Ok(true)
}


/// What the world handed the Initializing transition: the fetched
/// configuration record, the outcome of each artifact download and
/// each init step in the order they are attempted, and — if the record
/// stream reported the workload deleted while the steps ran — the index
/// of the first init step that deletion preempted.
pub struct InitEnv {
    pub config: Option<ConfigData>,
    pub download_ok: Vec<bool>,
    pub step_ok: Vec<bool>,
    pub deleted_before_step: Option<usize>,
}

/// How many init steps may start: all of them, or only those before
/// the point at which the record's deletion was observed.
pub open spec fn spec_step_budget(pod: Pod, env: InitEnv) -> int {
    let n = pod.init_steps@.len() as int;
    match env.deleted_before_step {
        None => n,
        Some(d) => if (d as int) < n {
            d as int
        } else {
            n
        },
    }
}

/// What the Initializing transition decided: the canonical input bytes
/// to write into the working directory, whether the artifact degrade
/// warning fired, the engine events, and the transition outcome — `Ok`
/// advances to Starting.
pub struct InitOutcome {
    pub input_file: Option<Vec<u8>>,
    pub warned_no_repo: bool,
    pub trace: Vec<StepEvent>,
    pub step_contexts: Vec<ContainerState>,
    pub cut_by_deletion: bool,
    pub next: Result<(), PodError>,
}

/// The number of artifacts the record's input declares, if it declares
/// any input at all.
pub open spec fn spec_declared_artifacts(c: Option<ConfigData>) -> int {
    match spec_input_step(c) {
        Ok(oi) => match oi {
            Some(v) => v.artifacts.len() as int,
            None => 0,
        },
        Err(e) => 0,
    }
}

/// The first state of a workload: provision the input, resolve
/// artifacts, run the init steps in order.
pub struct Initializing;

/// The terminal success state: collect the result, upload artifacts,
/// patch the record.
pub struct Completed;

impl Initializing {
    /// The status published while this state runs.
    pub fn status() -> (r: (Phase, Vec<u8>))
        ensures
            r.0 == Phase::Running,
            r.1@ == s_msg_initializing(),
    {
        (Phase::Running, lit_msg_initializing())
    }

    /// Drive one workload through initialization. Adopts the record's
    /// telemetry context; deserializes the input payload, fatally on
    /// malformed input; records the workflow identifier and emits the
    /// canonical input bytes; resolves the artifact repository, fatally
    /// on a malformed configuration and with a logged degrade when none
    /// is declared; downloads the requested artifacts sequentially,
    /// aborting on the first failure; then runs every init step in
    /// manifest order with a backoff reset before each, aborting the
    /// workload on the first failing step. A deletion observed on the
    /// record stream lets the running step finish, starts no later
    /// step, and hands the workload to its terminal completion.
    #[verifier::loop_isolation(false)]
    pub fn next(pod: &Pod, state: &mut PodState, env: &InitEnv) -> (r: InitOutcome)
        requires
            old(state).backoff.wf(),
            env.download_ok@.len() >= spec_declared_artifacts(env.config),
            env.step_ok@.len() >= pod.init_steps@.len(),
        ensures
            final(state).backoff.wf(),
            final(state).working_dir == old(state).working_dir,
            final(state).run_context == old(state).run_context,
            !spec_telemetry_ok(env.config) ==> ({
                &&& r.next matches Err(e) && e is TelemetryDecode
                &&& r.input_file is None
                &&& r.trace@.len() == 0
                &&& r.step_contexts@.len() == 0
                &&& !r.cut_by_deletion
                &&& *final(state) == *old(state)
            }),
            spec_telemetry_ok(env.config) ==> (match cfg_get(env.config, s_otel_key()) {
                Some(tb) => final(state).parent_context matches Some(pc) && pc@ == tb,
                None => final(state).parent_context == old(state).parent_context,
            }),
            spec_telemetry_ok(env.config) ==> (match spec_input_step(env.config) {
                Err(e0) => ({
                    &&& r.next matches Err(e) && e is InputDeserialization
                    &&& r.input_file is None
                    &&& r.trace@.len() == 0
                    &&& r.step_contexts@.len() == 0
                    &&& !r.cut_by_deletion
                    &&& final(state).workflow_name == old(state).workflow_name
                    &&& final(state).repo_config == old(state).repo_config
                }),
                Ok(oi) => match oi {
                    None => ({
                        &&& r.input_file is None
                        &&& !r.warned_no_repo
                        &&& final(state).workflow_name == old(state).workflow_name
                        &&& final(state).repo_config == old(state).repo_config
                        &&& spec_steps_outcome(*pod, *env, *old(state), *final(state), r)
                    }),
                    Some(v) => ({
                        &&& final(state).workflow_name matches Some(w) && w@ == v.workflow_name
                        &&& r.input_file matches Some(f) && f@ == enc_invocation(v)
                        &&& if v.artifacts.len() == 0 {
                            &&& !r.warned_no_repo
                            &&& final(state).repo_config == old(state).repo_config
                            &&& spec_steps_outcome(*pod, *env, *old(state), *final(state), r)
                        } else {
                            match spec_repo_step(env.config) {
                                Err(e0) => ({
                                    &&& r.next matches Err(e) && e is ArtifactConfig
                                    &&& r.trace@.len() == 0
                                    &&& r.step_contexts@.len() == 0
                                    &&& !r.cut_by_deletion
                                    &&& final(state).repo_config == old(state).repo_config
                                }),
                                Ok(oc) => match oc {
                                    None => ({
                                        &&& r.warned_no_repo
                                        &&& final(state).repo_config is None
                                        &&& spec_steps_outcome(
                                            *pod,
                                            *env,
                                            *old(state),
                                            *final(state),
                                            r,
                                        )
                                    }),
                                    Some(rv) => ({
                                        &&& final(state).repo_config matches Some(c) && c@ == rv
                                        &&& !r.warned_no_repo
                                        &&& ({
                                            let dk = first_false(
                                                env.download_ok@,
                                                v.artifacts.len() as int,
                                            );
                                            if dk < v.artifacts.len() {
                                                &&& r.next matches Err(e)
                                                    && (e matches PodError::ArtifactDownload(nm)
                                                    && nm@ == v.artifacts[dk].name)
                                                &&& r.trace@.len() == 0
                                                &&& r.step_contexts@.len() == 0
                                                &&& !r.cut_by_deletion
                                            } else {
                                                spec_steps_outcome(
                                                    *pod,
                                                    *env,
                                                    *old(state),
                                                    *final(state),
                                                    r,
                                                )
                                            }
                                        })
                                    }),
                                },
                            }
                        }
                    }),
                },
            }),
    {
        let tele = telemetry_of(&env.config);
        if let Some(tb) = tele {
            if parse_telemetry(tb.as_slice()).is_none() {
                return InitOutcome {
                    input_file: None,
                    warned_no_repo: false,
                    trace: Vec::new(),
                    step_contexts: Vec::new(),
                    cut_by_deletion: false,
                    next: Err(PodError::TelemetryDecode),
                };
            }
            state.parent_context = Some(tb);
        }
        let inv = match read_input(&env.config) {
            Ok(oi) => oi,
            Err(e) => {
                return InitOutcome {
                    input_file: None,
                    warned_no_repo: false,
                    trace: Vec::new(),
                    step_contexts: Vec::new(),
                    cut_by_deletion: false,
                    next: Err(e),
                };
            },
        };
        let mut input_file: Option<Vec<u8>> = None;
        let mut warned = false;
        if let Some(inv) = &inv {
            state.workflow_name = Some(copy_bytes(inv.workflow_name.as_slice()));
            input_file = Some(encode_invocation(inv));
            if inv.artifacts.len() > 0 {
                let repo = match resolve_repo(&env.config) {
                    Ok(oc) => oc,
                    Err(e) => {
                        return InitOutcome {
                            input_file,
                            warned_no_repo: false,
                            trace: Vec::new(),
                            step_contexts: Vec::new(),
                            cut_by_deletion: false,
                            next: Err(e),
                        };
                    },
                };
                match repo {
                    Some(c) => {
                        state.repo_config = Some(c);
                        let ghost st0 = *state;
                        let ghost arts = inv@.artifacts;
                        let na = inv.artifacts.len();
                        let mut k: usize = 0;
                        proof {
                            lemma_first_false(env.download_ok@, 0, na as int);
                        }
                        while k < na
                            invariant
                                *state == st0,
                                na == inv.artifacts@.len(),
                                arts == inv@.artifacts,
                                env.download_ok@.len() >= na,
                                0 <= k <= na,
                                forall|j: int| 0 <= j < k ==> env.download_ok@[j],
                                first_false(env.download_ok@, na as int) == first_false_from(
                                    env.download_ok@,
                                    k as int,
                                    na as int,
                                ),
                            decreases na - k,
                        {
                            if !env.download_ok[k] {
                                proof {
                                    assert(first_false(env.download_ok@, na as int) == k);
                                    assert(arts[k as int].name == inv.artifacts@[k as int]@.name);
                                }
                                return InitOutcome {
                                    input_file,
                                    warned_no_repo: false,
                                    trace: Vec::new(),
                                    step_contexts: Vec::new(),
                                    cut_by_deletion: false,
                                    next: Err(PodError::ArtifactDownload(copy_bytes(
                                        inv.artifacts[k].name.as_slice(),
                                    ))),
                                };
                            }
                            k += 1;
                        }
                    },
                    None => {
                        state.repo_config = None;
                        warned = true;
                    },
                }
            }
        }
        let mut trace: Vec<StepEvent> = Vec::new();
        let mut ctxs: Vec<ContainerState> = Vec::new();
        let stepped = run_init_steps(
            pod,
            state,
            &env.step_ok,
            env.deleted_before_step,
            &mut trace,
            &mut ctxs,
        );
        proof {
            assert(ctxs@.take(0) =~= Seq::<ContainerState>::empty());
        }
        let (cut, next): (bool, Result<(), PodError>) = match stepped {
            Ok(completed) => (!completed, Ok(())),
            Err(e) => (false, Err(e)),
        };
        InitOutcome {
            input_file,
            warned_no_repo: warned,
            trace,
            step_contexts: ctxs,
            cut_by_deletion: cut,
            next,
        }
    }
}

/// The init-step part of an Initializing outcome: the trace and result
/// that running the steps produces, and the backoff left reset.
pub open spec fn spec_steps_outcome(
    pod: Pod,
    env: InitEnv,
    pre: PodState,
    post: PodState,
    r: InitOutcome,
) -> bool {
    let names = names_view(pod.init_steps);
    let n = pod.init_steps@.len() as int;
    let budget = spec_step_budget(pod, env);
    let k = first_false(env.step_ok@, budget);
    &&& forall|j: int| 0 <= j < r.step_contexts@.len() ==> ctx_for_step(
        #[trigger] r.step_contexts@[j],
        pod,
        post,
        names[j],
    )
    &&& match r.next {
        Ok(u) => ({
            &&& k == budget
            &&& r.cut_by_deletion == (budget < n)
            &&& if budget == n {
                &&& trace_view(r.trace) == spec_steps_trace(names, env.step_ok@, n)
                    + seq![EventView::Reset]
                &&& r.step_contexts@.len() == n
                &&& post.backoff == pre.backoff.spec_reset()
            } else {
                &&& trace_view(r.trace) == spec_steps_trace(names, env.step_ok@, budget)
                &&& r.step_contexts@.len() == budget
                &&& post.backoff == (if budget == 0 {
                    pre.backoff
                } else {
                    pre.backoff.spec_reset()
                })
            }
        }),
        Err(e) => k < budget && (e matches PodError::InitStepFailed(nm) && nm@ == names[k])
            && trace_view(r.trace) == spec_steps_trace(names, env.step_ok@, k + 1)
            && r.step_contexts@.len() == k + 1 && !r.cut_by_deletion
            && post.backoff == pre.backoff.spec_reset(),
    }
}


/// The first index in `[i, n)` with no reference returned, or `n`.
pub open spec fn first_none_from(refs: Seq<Option<ArtifactRef>>, i: int, n: int) -> int
    decreases n - i,
{
    if i < 0 || i >= n {
        n
    } else if refs[i] is None {
        i
    } else {
        first_none_from(refs, i + 1, n)
    }
}

/// The first upload that failed among the first `n`, or `n` when all
/// returned a reference.
pub open spec fn first_none(refs: Seq<Option<ArtifactRef>>, n: int) -> int {
    first_none_from(refs, 0, n)
}

/// Where the first missing reference lies.
pub proof fn lemma_first_none(refs: Seq<Option<ArtifactRef>>, i: int, n: int)
    requires
        0 <= i <= n <= refs.len(),
    ensures
        i <= first_none_from(refs, i, n) <= n,
        forall|j: int| i <= j < first_none_from(refs, i, n) ==> refs[j] is Some,
        first_none_from(refs, i, n) < n ==> refs[first_none_from(refs, i, n)] is None,
    decreases n - i,
{
    if i < n && refs[i] is Some {
        lemma_first_none(refs, i + 1, n);
    }
}

/// The reference an upload returned; a placeholder where none came
/// back, which only stands where all uploads are known to have
/// succeeded.
pub open spec fn opt_ref_view(o: Option<ArtifactRef>) -> RefView {
    match o {
        Some(r) => r@,
        None => RefView { name: Seq::empty(), url: Seq::empty() },
    }
}

/// The number of artifacts the working directory's result declares.
pub open spec fn spec_result_artifacts(rf: Option<Vec<u8>>) -> int {
    match rf {
        None => 0,
        Some(b) => match spec_parsed_res(b@) {
            Some(v) => v.artifacts.len() as int,
            None => 0,
        },
    }
}

/// Whether the terminal patch was accepted decides the outcome.
pub open spec fn spec_patch_gate(patch_ok: bool, r: CompletedOutcome) -> bool {
    if patch_ok {
        r.next is Ok
    } else {
        r.next matches Err(e) && e is PatchFailed
    }
}

/// What the Completed transition decided: the patch to apply to the
/// record, whether the artifact list was dropped, and the terminal
/// outcome.
pub struct CompletedOutcome {
    pub patch: Option<PatchOp>,
    pub dropped_artifacts: bool,
    pub next: Result<(), PodError>,
}

impl Completed {
    /// The status published for this state.
    pub fn status() -> (r: (Phase, Vec<u8>))
        ensures
            r.0 == Phase::Succeeded,
            r.1@ == s_msg_completed(),
    {
        (Phase::Succeeded, lit_msg_completed())
    }

    /// Collect the workload's outcome. A missing result file is "no
    /// result": success with no patch. A present but unreadable file is
    /// fatal. A result with artifacts needs both a repository handle
    /// and a workflow identifier; missing either, the artifact list is
    /// dropped with a logged warning. Otherwise each artifact is
    /// uploaded sequentially, its local descriptor replaced in place by
    /// the returned remote reference, aborting on the first failure.
    /// The serialized result is then applied to the record as one
    /// idempotent replace patch; a rejected patch is the workload's
    /// terminal error.
    #[verifier::loop_isolation(false)]
    pub fn next(
        state: &PodState,
        result_file: &Option<Vec<u8>>,
        upload_refs: &Vec<Option<ArtifactRef>>,
        patch_ok: bool,
    ) -> (r: CompletedOutcome)
        requires
            upload_refs@.len() >= spec_result_artifacts(*result_file),
        ensures
            (match *result_file {
                None => r.patch is None && !r.dropped_artifacts && r.next is Ok,
                Some(bytes) => match spec_parsed_res(bytes@) {
                    None => (r.next matches Err(e) && e is ResultRead) && r.patch is None
                        && !r.dropped_artifacts,
                    Some(v) => ({
                        if v.artifacts.len() == 0 {
                            &&& !r.dropped_artifacts
                            &&& r.patch matches Some(p) && p.path@ == s_result_path()
                                && p.value@ == enc_result(v)
                            &&& spec_patch_gate(patch_ok, r)
                        } else if state.repo_config is None || state.workflow_name is None {
                            &&& r.dropped_artifacts
                            &&& r.patch matches Some(p) && p.path@ == s_result_path()
                                && p.value@ == enc_result(
                                ResView { artifacts: Seq::empty(), payload: v.payload },
                            )
                            &&& spec_patch_gate(patch_ok, r)
                        } else {
                            let n = v.artifacts.len() as int;
                            let uk = first_none(upload_refs@, n);
                            if uk < n {
                                &&& r.patch is None
                                &&& !r.dropped_artifacts
                                &&& r.next matches Err(e) && (e matches PodError::ArtifactUpload(
                                    nm,
                                ) && nm@ == local_desc(v.artifacts[uk]).name)
                            } else {
                                &&& !r.dropped_artifacts
                                &&& r.patch matches Some(p) && p.path@ == s_result_path()
                                    && p.value@ == enc_result(
                                    ResView {
                                        artifacts: Seq::new(
                                            n as nat,
                                            |k: int| ItemView::Remote(opt_ref_view(
                                                upload_refs@[k],
                                            )),
                                        ),
                                        payload: v.payload,
                                    },
                                )
                                &&& spec_patch_gate(patch_ok, r)
                            }
                        }
                    }),
                },
            }),
    {
        let bytes = match result_file {
            None => {
                return CompletedOutcome { patch: None, dropped_artifacts: false, next: Ok(()) };
            },
            Some(b) => b,
        };
        let mut res = match parse_result(bytes.as_slice()) {
            Some(res) => {
                proof {
                    let v0 = choose|v: ResView| wf_res(v) && all_local(v) && bytes@
                        == enc_result(v);
                    assert(wf_res(res@) && all_local(res@) && bytes@ == enc_result(res@));
                    assert(v0 == res@);
                }
                res
            },
            None => {
                proof {
                    if exists|v: ResView| wf_res(v) && all_local(v) && bytes@ == enc_result(v) {
                        let v0 = choose|v: ResView| wf_res(v) && all_local(v) && bytes@
                            == enc_result(v);
                        assert(bytes@ != enc_result(v0));
                    }
                }
                return CompletedOutcome {
                    patch: None,
                    dropped_artifacts: false,
                    next: Err(PodError::ResultRead),
                };
            },
        };
        let ghost v = res@;
        let mut dropped = false;
        if res.artifacts.len() > 0 {
            if state.repo_config.is_none() || state.workflow_name.is_none() {
                res.artifacts = Vec::new();
                dropped = true;
                proof {
                    assert(items_view(res.artifacts) =~= Seq::<ItemView>::empty());
                    assert(res@ == ResView { artifacts: Seq::empty(), payload: v.payload });
                }
            } else {
                let n = res.artifacts.len();
                let ghost target = Seq::new(
                    n as nat,
                    |k: int| ItemView::Remote(opt_ref_view(upload_refs@[k])),
                );
                let mut ups: Vec<ArtifactItem> = Vec::new();
                let mut k: usize = 0;
                proof {
                    lemma_first_none(upload_refs@, 0, n as int);
                    assert(items_view(ups) =~= target.take(0));
                }
                while k < n
                    invariant
                        0 <= k <= n,
                        forall|j: int| 0 <= j < k ==> upload_refs@[j] is Some,
                        first_none(upload_refs@, n as int) == first_none_from(
                            upload_refs@,
                            k as int,
                            n as int,
                        ),
                        items_view(ups) == target.take(k as int),
                    decreases n - k,
                {
                    match &upload_refs[k] {
                        None => {
                            proof {
                                assert(first_none(upload_refs@, n as int) == k);
                            }
                            let nm = match &res.artifacts[k] {
                                ArtifactItem::Local(d) => copy_bytes(d.name.as_slice()),
                                ArtifactItem::Remote(q) => {
                                    proof {
                                        assert(res@.artifacts[k as int] is Local);
                                        assert(false);
                                    }
                                    unreached()
                                },
                            };
                            proof {
                                assert(nm@ == local_desc(v.artifacts[k as int]).name);
                            }
                            return CompletedOutcome {
                                patch: None,
                                dropped_artifacts: false,
                                next: Err(PodError::ArtifactUpload(nm)),
                            };
                        },
                        Some(aref) => {
                            let ghost prev = items_view(ups);
                            ups.push(ArtifactItem::Remote(ArtifactRef {
                                name: copy_bytes(aref.name.as_slice()),
                                url: copy_bytes(aref.url.as_slice()),
                            }));
                            proof {
                                assert(items_view(ups) =~= prev.push(ItemView::Remote(aref@)));
                                assert(opt_ref_view(upload_refs@[k as int]) == aref@);
                                assert(items_view(ups) =~= target.take(k + 1));
                            }
                        },
                    }
                    k += 1;
                }
                res.artifacts = ups;
                proof {
                    assert(target.take(n as int) =~= target);
                    assert(res@ == ResView { artifacts: target, payload: v.payload });
                }
            }
        }
        let ser = encode_result(&res);
        let patch = result_patch(ser);
        let next: Result<(), PodError> = if patch_ok {
            Ok(())
        } else {
            Err(PodError::PatchFailed)
        };
        CompletedOutcome { patch: Some(patch), dropped_artifacts: dropped, next }
    }
}

} // verus!
