use kobo_driver::boundaries::{
    adapter_adjusted_replay_grade, adapter_confidence, adapter_evidence, adapter_is_stale,
    adapter_outcome, adapter_version_is_stale, sort_adapter_evidence, AdapterConfidence,
    AdapterEvidence, ReplayGrade,
};
use kobo_driver::config::{BoundaryPolicy, EcosystemAdapterPolicy};
use kobo_driver::scenario::{KoboSpan, ScenarioCoverage, ScenarioOpKind, ScenarioOperation, ScenarioProgram};

fn adapter(crate_name: &str, package: &str, version: Option<&str>) -> EcosystemAdapterPolicy {
    EcosystemAdapterPolicy {
        crate_name: crate_name.to_string(),
        package: package.to_string(),
        version: version.map(str::to_string),
        source: None,
        registry: None,
        checksum: None,
        compatible_crate: None,
        metadata_path: None,
        trust_policy: None,
        signed_by: None,
        validated: true,
        confidence: None,
        adapter_runtime: None,
        capture: None,
        reason: None,
    }
}

fn boundary(crate_name: &str, policy: BoundaryPolicy) -> ScenarioOperation {
    ScenarioOperation {
        kind: ScenarioOpKind::ExternalBoundary { crate_name: crate_name.to_string(), call_path: None, policy, reason: None },
        span: KoboSpan { file_id: 0, start: 0, end: 0 },
    }
}

fn program(operations: Vec<ScenarioOperation>) -> ScenarioProgram {
    ScenarioProgram {
        target: "main".to_string(),
        operations,
        coverage: ScenarioCoverage { unsupported_constructs: vec![], opaque_boundaries: vec![] },
    }
}

fn evidence(boundary: &str, adapter: &str, version: Option<&str>, confidence: AdapterConfidence) -> AdapterEvidence {
    AdapterEvidence {
        boundary: boundary.to_string(),
        adapter: adapter.to_string(),
        version: version.map(str::to_string),
        confidence,
        replay_grade: ReplayGrade::Exact,
        outcome: "proof".to_string(),
        reason: "r".to_string(),
    }
}

#[test]
fn confidence_follows_configuration_then_capture_then_runtime() {
    let mut a = adapter("x", "p", Some("1.0.0"));
    a.confidence = Some("sampled".to_string());
    assert_eq!(adapter_confidence(&a, &BoundaryPolicy::Record), AdapterConfidence::Sampled);
    a.confidence = Some("metadata_only".to_string());
    assert_eq!(adapter_confidence(&a, &BoundaryPolicy::Record), AdapterConfidence::MetadataOnly);
    a.confidence = Some("unknown".to_string());
    a.validated = false;
    assert_eq!(adapter_confidence(&a, &BoundaryPolicy::Record), AdapterConfidence::MetadataOnly);
    a.validated = true;
    a.capture = Some("boundary-io".to_string());
    assert_eq!(adapter_confidence(&a, &BoundaryPolicy::Record), AdapterConfidence::Exact);
    assert_eq!(adapter_confidence(&a, &BoundaryPolicy::Model), AdapterConfidence::MetadataOnly);
    a.adapter_runtime = Some("rt".to_string());
    assert_eq!(adapter_confidence(&a, &BoundaryPolicy::Model), AdapterConfidence::Modeled);
}

#[test]
fn stale_versions() {
    assert!(adapter_version_is_stale(None));
    assert!(adapter_version_is_stale(Some("0.0.0")));
    assert!(adapter_version_is_stale(Some("1.2.3-stale")));
    assert!(!adapter_version_is_stale(Some("1.2.3")));
}

#[test]
fn outcome_is_debt_for_stale_versions_else_by_confidence() {
    let a = adapter("x", "p", Some("0.0.0"));
    assert_eq!(adapter_outcome(&a, &AdapterConfidence::Exact), "debt");
    let a = adapter("x", "p", Some("2.0.0"));
    assert_eq!(adapter_outcome(&a, &AdapterConfidence::Exact), "proof");
    assert_eq!(adapter_outcome(&a, &AdapterConfidence::Modeled), "proof");
    assert_eq!(adapter_outcome(&a, &AdapterConfidence::Sampled), "probing_pass");
    assert_eq!(adapter_outcome(&a, &AdapterConfidence::MetadataOnly), "metadata_only");
}

#[test]
fn evidence_is_stale_by_version_or_outcome() {
    let mut e = evidence("b", "a", Some("1.0.0"), AdapterConfidence::Exact);
    assert!(!adapter_is_stale(&e));
    e.outcome = "debt".to_string();
    assert!(adapter_is_stale(&e));
    let e = evidence("b", "a", None, AdapterConfidence::Exact);
    assert!(adapter_is_stale(&e));
}

#[test]
fn sort_orders_by_boundary_adapter_version_and_keeps_first() {
    let mut items = vec![
        evidence("b", "a", Some("1"), AdapterConfidence::Exact),
        evidence("a", "z", None, AdapterConfidence::Exact),
        evidence("a", "z", Some("0"), AdapterConfidence::Exact),
        evidence("b", "a", Some("1"), AdapterConfidence::Sampled),
        evidence("a", "b", Some("9"), AdapterConfidence::Exact),
    ];
    sort_adapter_evidence(&mut items);
    let keys: Vec<(String, String, Option<String>)> =
        items.iter().map(|e| (e.boundary.clone(), e.adapter.clone(), e.version.clone())).collect();
    assert_eq!(
        keys,
        vec![
            ("a".to_string(), "b".to_string(), Some("9".to_string())),
            ("a".to_string(), "z".to_string(), None),
            ("a".to_string(), "z".to_string(), Some("0".to_string())),
            ("b".to_string(), "a".to_string(), Some("1".to_string())),
        ]
    );
    assert_eq!(items[3].confidence, AdapterConfidence::Exact);
}

#[test]
fn adapter_evidence_uses_first_adapter_per_boundary() {
    let mut first = adapter("reqwest", "http-replay", Some("1.0.0"));
    first.adapter_runtime = Some("rt".to_string());
    let second = adapter("reqwest", "other", Some("1.0.0"));
    let mut tokio = adapter("tokio", "tokio-replay", None);
    tokio.reason = Some("pinned".to_string());
    let program = program(vec![
        boundary("tokio", BoundaryPolicy::Record),
        boundary("reqwest", BoundaryPolicy::Model),
        boundary("serde", BoundaryPolicy::Model),
        boundary("reqwest", BoundaryPolicy::Model),
    ]);
    let evidence = adapter_evidence(&program, &[first, second, tokio], ReplayGrade::Exact);
    assert_eq!(evidence.len(), 2);
    assert_eq!(evidence[0].boundary, "reqwest");
    assert_eq!(evidence[0].adapter, "http-replay");
    assert_eq!(evidence[0].confidence, AdapterConfidence::Modeled);
    assert_eq!(evidence[0].outcome, "proof");
    assert_eq!(evidence[0].reason, "configured ecosystem adapter");
    assert_eq!(evidence[1].boundary, "tokio");
    assert_eq!(evidence[1].outcome, "debt");
    assert_eq!(evidence[1].reason, "pinned");
    assert_eq!(evidence[1].replay_grade, ReplayGrade::Exact);
}

#[test]
fn replay_grade_adjustment() {
    let exact = evidence("b", "a", Some("1.0.0"), AdapterConfidence::Exact);
    let modeled = evidence("b", "m", Some("1.0.0"), AdapterConfidence::Modeled);
    let sampled = evidence("b", "s", Some("1.0.0"), AdapterConfidence::Sampled);
    let stale = evidence("b", "t", Some("0.0.0"), AdapterConfidence::Exact);
    assert_eq!(adapter_adjusted_replay_grade(ReplayGrade::Exact, &[]), ReplayGrade::Exact);
    assert_eq!(adapter_adjusted_replay_grade(ReplayGrade::Exact, &[exact.clone_view()]), ReplayGrade::Exact);
    assert_eq!(adapter_adjusted_replay_grade(ReplayGrade::Exact, &[modeled.clone_view()]), ReplayGrade::Partial);
    assert_eq!(adapter_adjusted_replay_grade(ReplayGrade::Partial, &[modeled.clone_view()]), ReplayGrade::Partial);
    assert_eq!(adapter_adjusted_replay_grade(ReplayGrade::Exact, &[sampled.clone_view(), modeled.clone_view()]), ReplayGrade::NotReplayable);
    assert_eq!(adapter_adjusted_replay_grade(ReplayGrade::Exact, &[sampled.clone_view(), stale.clone_view()]), ReplayGrade::Debt);
    assert_eq!(adapter_adjusted_replay_grade(ReplayGrade::NotReplayable, &[stale.clone_view()]), ReplayGrade::NotReplayable);
    assert_eq!(adapter_adjusted_replay_grade(ReplayGrade::Debt, &[]), ReplayGrade::Debt);
}

trait CloneView {
    fn clone_view(&self) -> AdapterEvidence;
}

impl CloneView for AdapterEvidence {
    fn clone_view(&self) -> AdapterEvidence {
        AdapterEvidence {
            boundary: self.boundary.clone(),
            adapter: self.adapter.clone(),
            version: self.version.clone(),
            confidence: self.confidence,
            replay_grade: self.replay_grade,
            outcome: self.outcome.clone(),
            reason: self.reason.clone(),
        }
    }
}
