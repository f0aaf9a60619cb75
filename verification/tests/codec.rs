use wasi_provider::codec::encode_invocation;
use wasi_provider::codec::encode_result;
use wasi_provider::codec::parse_invocation;
use wasi_provider::codec::parse_repo_config;
use wasi_provider::codec::parse_result;
use wasi_provider::codec::write_then_read_invocation;
use wasi_provider::model::ArtifactDescriptor;
use wasi_provider::model::ArtifactItem;
use wasi_provider::model::ArtifactRef;
use wasi_provider::model::Invocation;
use wasi_provider::model::WorkloadResult;

fn desc(name: &str, path: &str) -> ArtifactDescriptor {
    ArtifactDescriptor { name: name.as_bytes().to_vec(), path: path.as_bytes().to_vec() }
}

#[test]
fn encode_invocation_canonical_form() {
    let inv = Invocation {
        workflow_name: b"wf1".to_vec(),
        artifacts: vec![],
        parameters: b"".to_vec(),
    };
    let out = encode_invocation(&inv);
    assert_eq!(
        out,
        br#"{"workflow_name":"wf1","artifacts":[],"parameters":""}"#.to_vec()
    );
}

#[test]
fn encode_invocation_with_artifacts() {
    let inv = Invocation {
        workflow_name: b"wf2".to_vec(),
        artifacts: vec![desc("a", "in/a.bin"), desc("b", "in/b.bin")],
        parameters: b"k=v".to_vec(),
    };
    let out = encode_invocation(&inv);
    assert_eq!(
        out,
        br#"{"workflow_name":"wf2","artifacts":[{"name":"a","path":"in/a.bin"},{"name":"b","path":"in/b.bin"}],"parameters":"k=v"}"#.to_vec()
    );
}

#[test]
fn encoded_invocation_is_real_json() {
    let inv = Invocation {
        workflow_name: b"wf1".to_vec(),
        artifacts: vec![desc("a", "p")],
        parameters: b"x".to_vec(),
    };
    let out = encode_invocation(&inv);
    let v: serde_json::Value = serde_json::from_slice(&out).unwrap();
    assert_eq!(v["workflow_name"], "wf1");
    assert_eq!(v["artifacts"][0]["name"], "a");
    assert_eq!(v["artifacts"][0]["path"], "p");
    assert_eq!(v["parameters"], "x");
}

#[test]
fn invocation_round_trip() {
    let inv = Invocation {
        workflow_name: b"wf-9".to_vec(),
        artifacts: vec![desc("model", "artifacts/model.onnx")],
        parameters: b"{nested:1}".to_vec(),
    };
    let bytes = encode_invocation(&inv);
    let back = parse_invocation(&bytes).expect("canonical form must parse");
    assert_eq!(back.workflow_name, inv.workflow_name);
    assert_eq!(back.artifacts.len(), 1);
    assert_eq!(back.artifacts[0].name, inv.artifacts[0].name);
    assert_eq!(back.artifacts[0].path, inv.artifacts[0].path);
    assert_eq!(back.parameters, inv.parameters);
    assert_eq!(encode_invocation(&back), bytes);
}

#[test]
fn write_then_read_returns_same_invocation() {
    let inv = Invocation {
        workflow_name: b"wf1".to_vec(),
        artifacts: vec![],
        parameters: b"p".to_vec(),
    };
    let back = write_then_read_invocation(&inv);
    assert_eq!(back.workflow_name, b"wf1".to_vec());
    assert_eq!(back.parameters, b"p".to_vec());
    assert!(back.artifacts.is_empty());
}

#[test]
fn parse_invocation_accepts_short_form() {
    let inv = parse_invocation(br#"{"workflow_name":"wf1","artifacts":[]}"#)
        .expect("the short form without parameters must parse");
    assert_eq!(inv.workflow_name, b"wf1".to_vec());
    assert!(inv.artifacts.is_empty());
    assert!(inv.parameters.is_empty());
    assert_eq!(
        encode_invocation(&inv),
        br#"{"workflow_name":"wf1","artifacts":[],"parameters":""}"#.to_vec()
    );
}

#[test]
fn parse_invocation_rejects_malformed() {
    assert!(parse_invocation(b"").is_none());
    assert!(parse_invocation(b"{}").is_none());
    assert!(parse_invocation(b"not json at all").is_none());
    assert!(parse_invocation(br#"{"workflow_name":"wf1"}"#).is_none());
    // trailing bytes after a well-formed document
    assert!(
        parse_invocation(br#"{"workflow_name":"w","artifacts":[],"parameters":""}x"#).is_none()
    );
    // a quote cannot stand raw inside a string
    assert!(
        parse_invocation(b"{\"workflow_name\":\"w\"\",\"artifacts\":[],\"parameters\":\"\"}")
            .is_none()
    );
}

#[test]
fn encode_result_replaces_paths_with_urls() {
    let res = WorkloadResult {
        artifacts: vec![ArtifactItem::Remote(ArtifactRef {
            name: b"out".to_vec(),
            url: b"s3://bucket/out".to_vec(),
        })],
        payload: b"done".to_vec(),
    };
    let out = encode_result(&res);
    assert_eq!(
        out,
        br#"{"outputs":{"artifacts":[{"name":"out","url":"s3://bucket/out"}]},"payload":"done"}"#
            .to_vec()
    );
    let v: serde_json::Value = serde_json::from_slice(&out).unwrap();
    assert_eq!(v["outputs"]["artifacts"][0]["url"], "s3://bucket/out");
}

#[test]
fn result_round_trip_local() {
    let res = WorkloadResult {
        artifacts: vec![ArtifactItem::Local(desc("out", "out/result.bin"))],
        payload: b"ok".to_vec(),
    };
    let bytes = encode_result(&res);
    let back = parse_result(&bytes).expect("canonical local result must parse");
    assert_eq!(back.payload, b"ok".to_vec());
    assert_eq!(back.artifacts.len(), 1);
    match &back.artifacts[0] {
        ArtifactItem::Local(d) => {
            assert_eq!(d.name, b"out".to_vec());
            assert_eq!(d.path, b"out/result.bin".to_vec());
        }
        ArtifactItem::Remote(_) => panic!("parsed result must hold local descriptors"),
    }
}

#[test]
fn parse_result_rejects_corrupt() {
    assert!(parse_result(b"").is_none());
    assert!(parse_result(b"{\"outputs\":").is_none());
    assert!(parse_result(br#"{"payload":"x"}"#).is_none());
}

#[test]
fn parse_repo_config_forms() {
    let c = parse_repo_config(br#"{"endpoint":"http://s3.local","bucket":"artifacts"}"#)
        .expect("canonical configuration must parse");
    assert_eq!(c.endpoint, b"http://s3.local".to_vec());
    assert_eq!(c.bucket, b"artifacts".to_vec());
    assert!(parse_repo_config(b"{}").is_none());
    assert!(parse_repo_config(br#"{"endpoint":"e"}"#).is_none());
}
