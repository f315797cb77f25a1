use kobo_driver::config::{
    BoundaryPolicy, EcosystemAdapterPolicy, EcosystemCratePolicy, EcosystemPolicyConfig,
    EcosystemTypesPolicy, RawRuntimeProfileSection, RuntimeProfileConfig,
};

#[test]
fn runtime_profile_defaults() {
    let profile = RuntimeProfileConfig::default();
    assert_eq!(profile.service_buffer, 64);
    assert_eq!(profile.service_backpressure, "block-on-full");
    assert_eq!(profile.scheduler, "small-random");
    assert_eq!(profile.record, "recorded-boundary-io");
    assert_eq!(profile.activity, "retry-idempotency");
    assert_eq!(profile.cancellation, "scheduler-history");
    assert_eq!(profile.scenario_event_budget, 64);
}

#[test]
fn to_codegen_options_copies_every_field() {
    let profile = RuntimeProfileConfig {
        service_buffer: 7,
        service_backpressure: "drop".to_string(),
        scheduler: "fifo".to_string(),
        record: "none".to_string(),
        activity: "once".to_string(),
        cancellation: "never".to_string(),
        scenario_event_budget: 9,
    };
    let options = profile.to_codegen_options();
    assert_eq!(options.service_buffer, 7);
    assert_eq!(options.service_backpressure, "drop");
    assert_eq!(options.scheduler, "fifo");
    assert_eq!(options.record, "none");
    assert_eq!(options.activity, "once");
    assert_eq!(options.cancellation, "never");
    assert_eq!(options.scenario_event_budget, 9);
}

#[test]
fn raw_runtime_profile_overrides_only_given_settings() {
    let mut profile = RuntimeProfileConfig::default();
    let section = RawRuntimeProfileSection {
        service_buffer: Some(8),
        service_backpressure: None,
        scheduler: Some("pct".to_string()),
        record: None,
        activity: None,
        cancellation: None,
        scenario_event_budget: Some(128),
    };
    section.apply_to(&mut profile);
    assert_eq!(profile.service_buffer, 8);
    assert_eq!(profile.service_backpressure, "block-on-full");
    assert_eq!(profile.scheduler, "pct");
    assert_eq!(profile.record, "recorded-boundary-io");
    assert_eq!(profile.scenario_event_budget, 128);
}

fn adapter(crate_name: &str, package: &str) -> EcosystemAdapterPolicy {
    EcosystemAdapterPolicy {
        crate_name: crate_name.to_string(),
        package: package.to_string(),
        version: Some("1.0.0".to_string()),
        source: None,
        registry: None,
        checksum: None,
        compatible_crate: None,
        metadata_path: None,
        trust_policy: None,
        signed_by: None,
        validated: true,
        confidence: None,
        adapter_runtime: None,
        capture: None,
        reason: None,
    }
}

#[test]
fn ecosystem_lookups_find_the_first_entry() {
    let mut config = EcosystemPolicyConfig::default();
    assert_eq!(config.default, BoundaryPolicy::Opaque);
    assert!(!config.default_is_configured);
    assert_eq!(config.replay_unknown, BoundaryPolicy::Debt);
    config.crates.push(EcosystemCratePolicy {
        name: "tokio".to_string(),
        policy: BoundaryPolicy::Record,
        reason: None,
        retry: None,
    });
    config.adapters.push(adapter("reqwest", "first"));
    config.adapters.push(adapter("reqwest", "second"));
    config.types.push(EcosystemTypesPolicy {
        crate_name: "serde".to_string(),
        package: "serde-types".to_string(),
        version: None,
        source: None,
        registry: None,
        checksum: None,
        compatible_crate: None,
        metadata_path: None,
        trust_policy: None,
        signed_by: None,
        validated: false,
        reason: None,
    });
    assert_eq!(config.crate_policy("tokio").map(|c| c.policy), Some(BoundaryPolicy::Record));
    assert!(config.crate_policy("hyper").is_none());
    assert_eq!(config.adapter_for("reqwest").map(|a| a.package.clone()), Some("first".to_string()));
    assert_eq!(config.types_for("serde").map(|t| t.package.clone()), Some("serde-types".to_string()));
    assert!(config.types_for("tokio").is_none());
}
