use wasi_provider::backoff::BackoffStrategy;
use wasi_provider::container::run_container;
use wasi_provider::container::ContainerPhase;
use wasi_provider::container::ContainerState;
use wasi_provider::container::StepKey;
use wasi_provider::driver::run_workload;
use wasi_provider::driver::WorkloadEnv;
use wasi_provider::model::ArtifactRef;
use wasi_provider::model::ConfigData;
use wasi_provider::model::ConfigEntry;
use wasi_provider::pod::Completed;
use wasi_provider::pod::InitEnv;
use wasi_provider::pod::Initializing;
use wasi_provider::pod::Phase;
use wasi_provider::pod::Pod;
use wasi_provider::pod::PodError;
use wasi_provider::pod::PodState;
use wasi_provider::pod::StepEvent;
use wasi_provider::record::apply_result_patch;
use wasi_provider::record::result_patch;

fn entry(key: &str, value: &str) -> ConfigEntry {
    ConfigEntry { key: key.as_bytes().to_vec(), value: value.as_bytes().to_vec() }
}

fn pod(init_steps: &[&str]) -> Pod {
    Pod {
        name: b"pod-1".to_vec(),
        namespace: b"default".to_vec(),
        init_steps: init_steps.iter().map(|s| s.as_bytes().to_vec()).collect(),
        app_steps: vec![b"main".to_vec()],
    }
}

fn fresh_state() -> PodState {
    PodState {
        working_dir: b"/var/run/wl/pod-1".to_vec(),
        run_context: 7,
        backoff: BackoffStrategy::new(100, 1000),
        workflow_name: None,
        repo_config: None,
        parent_context: None,
    }
}

#[test]
fn backoff_doubles_and_resets_to_initial() {
    let mut b = BackoffStrategy::new(100, 1000);
    assert_eq!(b.next_delay(), 100);
    assert_eq!(b.next_delay(), 200);
    assert_eq!(b.next_delay(), 400);
    assert_eq!(b.next_delay(), 800);
    assert_eq!(b.next_delay(), 1000);
    assert_eq!(b.next_delay(), 1000);
    b.reset();
    assert_eq!(b.next_delay(), 100);
}

#[test]
fn config_lookup_first_match_wins() {
    let data = ConfigData { entries: vec![entry("a", "1"), entry("b", "2"), entry("a", "3")] };
    assert_eq!(data.get(b"a").unwrap(), &b"1".to_vec());
    assert_eq!(data.get(b"b").unwrap(), &b"2".to_vec());
    assert!(data.get(b"c").is_none());
}

fn step_ctx(step: &str) -> ContainerState {
    ContainerState::new(
        b"pod-1".to_vec(),
        StepKey::Init(step.as_bytes().to_vec()),
        7,
        b"/var/run/wl/pod-1".to_vec(),
        None,
    )
}

#[test]
fn container_runs_waiting_running_terminated() {
    let (ctx, phases) = run_container(step_ctx("s1"), true);
    assert_eq!(phases, vec![
        ContainerPhase::Waiting,
        ContainerPhase::Running,
        ContainerPhase::Terminated(true),
    ]);
    assert_eq!(ctx.pod_name, b"pod-1".to_vec());
    let (_, failed) = run_container(step_ctx("s1"), false);
    assert_eq!(failed[2], ContainerPhase::Terminated(false));
}

#[test]
fn completed_patch_is_idempotent() {
    let mut record = ConfigData { entries: vec![entry("input.json", "{}")] };
    let patch = result_patch(br#"{"outputs":{"artifacts":[]},"payload":""}"#.to_vec());
    apply_result_patch(&mut record, &patch);
    let once: Vec<(Vec<u8>, Vec<u8>)> =
        record.entries.iter().map(|e| (e.key.clone(), e.value.clone())).collect();
    let patch2 = result_patch(br#"{"outputs":{"artifacts":[]},"payload":""}"#.to_vec());
    apply_result_patch(&mut record, &patch2);
    let twice: Vec<(Vec<u8>, Vec<u8>)> =
        record.entries.iter().map(|e| (e.key.clone(), e.value.clone())).collect();
    assert_eq!(once, twice);
    assert_eq!(record.get(b"result.json").unwrap(),
        &br#"{"outputs":{"artifacts":[]},"payload":""}"#.to_vec());
    assert_eq!(record.get(b"input.json").unwrap(), &b"{}".to_vec());
}

#[test]
fn initializing_accepts_input_without_parameters() {
    // the control plane may omit the parameters member entirely
    let config = ConfigData { entries: vec![entry(
        "input.json",
        r#"{"workflow_name":"wf1","artifacts":[]}"#,
    )] };
    let p = pod(&[]);
    let mut st = fresh_state();
    let env = InitEnv {
        config: Some(config),
        download_ok: vec![],
        step_ok: vec![],
        deleted_before_step: None,
    };
    let out = Initializing::next(&p, &mut st, &env);
    assert!(out.next.is_ok());
    assert_eq!(st.workflow_name, Some(b"wf1".to_vec()));
    // the canonical input written spells the empty parameters out
    assert_eq!(
        out.input_file.unwrap(),
        br#"{"workflow_name":"wf1","artifacts":[],"parameters":""}"#.to_vec()
    );
}

#[test]
fn init_step_contexts_carry_telemetry() {
    let config = ConfigData { entries: vec![entry("opentelemetry.json", r#"{"traceparent":"00-aa"}"#)] };
    let p = pod(&["s1"]);
    let mut st = fresh_state();
    let env = InitEnv {
        config: Some(config),
        download_ok: vec![],
        step_ok: vec![true],
        deleted_before_step: None,
    };
    let out = Initializing::next(&p, &mut st, &env);
    assert!(out.next.is_ok());
    assert_eq!(out.step_contexts.len(), 1);
    let ctx = &out.step_contexts[0];
    assert_eq!(ctx.pod_name, b"pod-1".to_vec());
    assert_eq!(ctx.pod_working_dir, b"/var/run/wl/pod-1".to_vec());
    assert_eq!(ctx.run_context, 7);
    assert_eq!(ctx.parent_context, Some(br#"{"traceparent":"00-aa"}"#.to_vec()));
    match &ctx.container_key {
        StepKey::Init(nm) => assert_eq!(nm, &b"s1".to_vec()),
        StepKey::App(_) => panic!("an init step carries an Init key"),
    }
}

#[test]
fn deletion_during_init_stops_remaining_steps() {
    let p = pod(&["s1", "s2", "s3"]);
    let mut st = fresh_state();
    let env = InitEnv {
        config: None,
        download_ok: vec![],
        step_ok: vec![true, true, true],
        deleted_before_step: Some(1),
    };
    let out = Initializing::next(&p, &mut st, &env);
    assert!(out.next.is_ok());
    assert!(out.cut_by_deletion);
    // only s1 ran: reset, started, finished — and nothing after
    assert_eq!(out.trace.len(), 3);
    assert!(matches!(&out.trace[1], StepEvent::StepStarted(n) if n == &b"s1".to_vec()));
    assert_eq!(out.step_contexts.len(), 1);
}

#[test]
fn deletion_during_init_reaches_terminal_completion() {
    let p = pod(&["s1", "s2"]);
    let mut st = fresh_state();
    let env = WorkloadEnv {
        init: InitEnv {
            config: None,
            download_ok: vec![],
            step_ok: vec![true, true],
            deleted_before_step: Some(0),
        },
        deleted: false,
        main_run_ok: false,
        result_file: None,
        upload_refs: vec![],
        patch_ok: true,
    };
    let report = run_workload(&p, &mut st, &env);
    assert!(report.outcome.is_ok());
    // no step started, no main run: straight to the terminal status
    assert_eq!(report.statuses.len(), 2);
    assert_eq!(report.statuses.last().unwrap().phase, Phase::Succeeded);
    assert!(report.trace.is_empty());
}

#[test]
fn initializing_records_workflow_and_writes_input() {
    // the record carries an input with no artifacts; zero init steps
    let config = ConfigData { entries: vec![entry(
        "input.json",
        r#"{"workflow_name":"wf1","artifacts":[],"parameters":""}"#,
    )] };
    let p = pod(&[]);
    let mut st = fresh_state();
    let env = InitEnv { config: Some(config), download_ok: vec![], step_ok: vec![], deleted_before_step: None };
    let out = Initializing::next(&p, &mut st, &env);
    assert!(out.next.is_ok());
    assert_eq!(st.workflow_name, Some(b"wf1".to_vec()));
    assert_eq!(
        out.input_file.unwrap(),
        br#"{"workflow_name":"wf1","artifacts":[],"parameters":""}"#.to_vec()
    );
    assert!(!out.warned_no_repo);
    // zero init steps: the trace holds only the final backoff reset
    assert_eq!(out.trace.len(), 1);
    assert!(matches!(out.trace[0], StepEvent::BackoffReset));
}

#[test]
fn initializing_without_repo_config_degrades_with_warning() {
    // artifacts are declared but no repository configuration is resolvable
    let config = ConfigData { entries: vec![entry(
        "input.json",
        r#"{"workflow_name":"wf1","artifacts":[{"name":"a","path":"p"}],"parameters":""}"#,
    )] };
    let p = pod(&[]);
    let mut st = fresh_state();
    let env = InitEnv { config: Some(config), download_ok: vec![true], step_ok: vec![], deleted_before_step: None };
    let out = Initializing::next(&p, &mut st, &env);
    assert!(out.next.is_ok());
    assert!(out.warned_no_repo);
    assert!(st.repo_config.is_none());
}

#[test]
fn initializing_malformed_input_is_fatal() {
    let config = ConfigData { entries: vec![entry("input.json", "{broken")] };
    let p = pod(&[]);
    let mut st = fresh_state();
    let env = InitEnv { config: Some(config), download_ok: vec![], step_ok: vec![], deleted_before_step: None };
    let out = Initializing::next(&p, &mut st, &env);
    assert!(matches!(out.next, Err(PodError::InputDeserialization)));
    assert!(out.input_file.is_none());
}

#[test]
fn initializing_malformed_repo_config_is_fatal() {
    let config = ConfigData { entries: vec![
        entry(
            "input.json",
            r#"{"workflow_name":"wf1","artifacts":[{"name":"a","path":"p"}],"parameters":""}"#,
        ),
        entry("artifact-repo-config.json", "{not a config"),
    ] };
    let p = pod(&[]);
    let mut st = fresh_state();
    let env = InitEnv { config: Some(config), download_ok: vec![true], step_ok: vec![], deleted_before_step: None };
    let out = Initializing::next(&p, &mut st, &env);
    assert!(matches!(out.next, Err(PodError::ArtifactConfig)));
}

#[test]
fn initializing_download_failure_aborts() {
    let config = ConfigData { entries: vec![
        entry(
            "input.json",
            r#"{"workflow_name":"wf1","artifacts":[{"name":"a","path":"p"},{"name":"b","path":"q"}],"parameters":""}"#,
        ),
        entry("artifact-repo-config.json", r#"{"endpoint":"http://s3","bucket":"art"}"#),
    ] };
    let p = pod(&[]);
    let mut st = fresh_state();
    let env = InitEnv { config: Some(config), download_ok: vec![true, false], step_ok: vec![], deleted_before_step: None };
    let out = Initializing::next(&p, &mut st, &env);
    match out.next {
        Err(PodError::ArtifactDownload(nm)) => assert_eq!(nm, b"b".to_vec()),
        _ => panic!("second download fails, the transition must abort with its name"),
    }
    assert!(st.repo_config.is_some());
}

#[test]
fn initializing_adopts_telemetry_context() {
    let config = ConfigData { entries: vec![entry("opentelemetry.json", r#"{"traceparent":"00-aa-bb-01"}"#)] };
    let p = pod(&[]);
    let mut st = fresh_state();
    let env = InitEnv { config: Some(config), download_ok: vec![], step_ok: vec![], deleted_before_step: None };
    let out = Initializing::next(&p, &mut st, &env);
    assert!(out.next.is_ok());
    assert_eq!(st.parent_context, Some(br#"{"traceparent":"00-aa-bb-01"}"#.to_vec()));
}

#[test]
fn initializing_malformed_telemetry_is_fatal() {
    let config = ConfigData { entries: vec![
        entry("opentelemetry.json", "not a map"),
        entry("input.json", r#"{"workflow_name":"wf1","artifacts":[],"parameters":""}"#),
    ] };
    let p = pod(&[]);
    let mut st = fresh_state();
    let env = InitEnv { config: Some(config), download_ok: vec![], step_ok: vec![], deleted_before_step: None };
    let out = Initializing::next(&p, &mut st, &env);
    assert!(matches!(out.next, Err(PodError::TelemetryDecode)));
    assert!(st.parent_context.is_none());
    assert!(st.workflow_name.is_none());
}

#[test]
fn telemetry_map_parses_as_pairs() {
    let es = wasi_provider::codec::parse_telemetry(br#"{"traceparent":"00-aa","state":"x"}"#)
        .expect("a flat string map must parse");
    assert_eq!(es.len(), 2);
    assert_eq!(es[0].key, b"traceparent".to_vec());
    assert_eq!(es[0].value, b"00-aa".to_vec());
    assert_eq!(es[1].key, b"state".to_vec());
    assert!(wasi_provider::codec::parse_telemetry(b"{}").unwrap().is_empty());
    assert!(wasi_provider::codec::parse_telemetry(br#"{"a":1}"#).is_none());
}

#[test]
fn init_steps_run_in_order_and_stop_at_first_failure() {
    let p = pod(&["s1", "s2", "s3"]);
    let mut st = fresh_state();
    let env = InitEnv { config: None, download_ok: vec![], step_ok: vec![true, false, true], deleted_before_step: None };
    let out = Initializing::next(&p, &mut st, &env);
    match out.next {
        Err(PodError::InitStepFailed(nm)) => assert_eq!(nm, b"s2".to_vec()),
        _ => panic!("the failing step must be named"),
    }
    // s1 ran, s2 ran and failed, s3 never started
    let started: Vec<&Vec<u8>> = out
        .trace
        .iter()
        .filter_map(|e| match e {
            StepEvent::StepStarted(n) => Some(n),
            _ => None,
        })
        .collect();
    assert_eq!(started, vec![&b"s1".to_vec(), &b"s2".to_vec()]);
    // every start stands directly after a backoff reset
    for (i, e) in out.trace.iter().enumerate() {
        if matches!(e, StepEvent::StepStarted(_)) {
            assert!(matches!(out.trace[i - 1], StepEvent::BackoffReset));
        }
    }
    assert!(matches!(out.trace[5], StepEvent::StepFinished(_, false)));
}

#[test]
fn completed_without_result_file_succeeds_with_no_patch() {
    let st = fresh_state();
    let out = Completed::next(&st, &None, &vec![], true);
    assert!(out.next.is_ok());
    assert!(out.patch.is_none());
    assert!(!out.dropped_artifacts);
}

#[test]
fn completed_corrupt_result_file_is_fatal() {
    let st = fresh_state();
    let out = Completed::next(&st, &Some(b"garbage".to_vec()), &vec![], true);
    assert!(matches!(out.next, Err(PodError::ResultRead)));
    assert!(out.patch.is_none());
}

#[test]
fn completed_drops_artifacts_without_handles() {
    // the result declares an artifact, but the context has neither a
    // repository handle nor a workflow identifier
    let st = fresh_state();
    let file = br#"{"outputs":{"artifacts":[{"name":"a","path":"p"}]},"payload":"x"}"#.to_vec();
    let out = Completed::next(&st, &Some(file), &vec![Some(ArtifactRef {
        name: b"a".to_vec(),
        url: b"u".to_vec(),
    })], true);
    assert!(out.next.is_ok());
    assert!(out.dropped_artifacts);
    let patch = out.patch.unwrap();
    assert_eq!(patch.path, b"/data/result.json".to_vec());
    assert_eq!(
        patch.value,
        br#"{"outputs":{"artifacts":[]},"payload":"x"}"#.to_vec()
    );
}

#[test]
fn completed_uploads_replace_descriptors_in_place() {
    let mut st = fresh_state();
    st.workflow_name = Some(b"wf1".to_vec());
    st.repo_config = Some(wasi_provider::model::RepoConfig {
        endpoint: b"http://s3".to_vec(),
        bucket: b"art".to_vec(),
    });
    let file = br#"{"outputs":{"artifacts":[{"name":"a","path":"p"}]},"payload":"x"}"#.to_vec();
    let refs = vec![Some(ArtifactRef { name: b"a".to_vec(), url: b"s3://art/a".to_vec() })];
    let out = Completed::next(&st, &Some(file), &refs, true);
    assert!(out.next.is_ok());
    assert!(!out.dropped_artifacts);
    assert_eq!(
        out.patch.unwrap().value,
        br#"{"outputs":{"artifacts":[{"name":"a","url":"s3://art/a"}]},"payload":"x"}"#.to_vec()
    );
}

#[test]
fn completed_upload_failure_is_fatal() {
    let mut st = fresh_state();
    st.workflow_name = Some(b"wf1".to_vec());
    st.repo_config = Some(wasi_provider::model::RepoConfig {
        endpoint: b"http://s3".to_vec(),
        bucket: b"art".to_vec(),
    });
    let file = br#"{"outputs":{"artifacts":[{"name":"a","path":"p"}]},"payload":""}"#.to_vec();
    let out = Completed::next(&st, &Some(file), &vec![None], true);
    match out.next {
        Err(PodError::ArtifactUpload(nm)) => assert_eq!(nm, b"a".to_vec()),
        _ => panic!("the failing upload must be named"),
    }
    assert!(out.patch.is_none());
}

#[test]
fn completed_patch_rejection_is_terminal_error() {
    let st = fresh_state();
    let file = br#"{"outputs":{"artifacts":[]},"payload":""}"#.to_vec();
    let out = Completed::next(&st, &Some(file), &vec![], false);
    assert!(matches!(out.next, Err(PodError::PatchFailed)));
}

#[test]
fn workload_run_terminates_in_succeeded() {
    let p = pod(&["prep"]);
    let mut st = fresh_state();
    let env = WorkloadEnv {
        init: InitEnv { config: None, download_ok: vec![], step_ok: vec![true], deleted_before_step: None },
        deleted: false,
        main_run_ok: true,
        result_file: None,
        upload_refs: vec![],
        patch_ok: true,
    };
    let report = run_workload(&p, &mut st, &env);
    assert!(report.outcome.is_ok());
    let phases: Vec<Phase> = report.statuses.iter().map(|s| s.phase).collect();
    assert_eq!(phases, vec![Phase::Running, Phase::Running, Phase::Running, Phase::Succeeded]);
    assert_eq!(report.statuses[0].message, b"Initializing".to_vec());
    assert_eq!(report.statuses[3].message, b"Completed".to_vec());
}

#[test]
fn workload_run_terminates_in_failed() {
    let p = pod(&["prep"]);
    let mut st = fresh_state();
    let env = WorkloadEnv {
        init: InitEnv { config: None, download_ok: vec![], step_ok: vec![false], deleted_before_step: None },
        deleted: false,
        main_run_ok: true,
        result_file: None,
        upload_refs: vec![],
        patch_ok: true,
    };
    let report = run_workload(&p, &mut st, &env);
    assert!(matches!(report.outcome, Err(PodError::InitStepFailed(_))));
    let last = report.statuses.last().unwrap();
    assert_eq!(last.phase, Phase::Failed);
    assert_eq!(last.message, b"Error".to_vec());
}

#[test]
fn deleted_record_still_reaches_terminal_state() {
    // deletion skips the main run and goes straight to terminal completion
    let p = pod(&[]);
    let mut st = fresh_state();
    let env = WorkloadEnv {
        init: InitEnv { config: None, download_ok: vec![], step_ok: vec![], deleted_before_step: None },
        deleted: true,
        main_run_ok: false,
        result_file: None,
        upload_refs: vec![],
        patch_ok: true,
    };
    let report = run_workload(&p, &mut st, &env);
    assert!(report.outcome.is_ok());
    assert_eq!(report.statuses.len(), 2);
    assert_eq!(report.statuses.last().unwrap().phase, Phase::Succeeded);
}

#[test]
fn failed_main_run_ends_in_error() {
    let p = pod(&[]);
    let mut st = fresh_state();
    let env = WorkloadEnv {
        init: InitEnv { config: None, download_ok: vec![], step_ok: vec![], deleted_before_step: None },
        deleted: false,
        main_run_ok: false,
        result_file: None,
        upload_refs: vec![],
        patch_ok: true,
    };
    let report = run_workload(&p, &mut st, &env);
    assert!(matches!(report.outcome, Err(PodError::Execution)));
    assert_eq!(report.statuses.last().unwrap().phase, Phase::Failed);
}
