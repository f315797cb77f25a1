//! Configuration values the driver reads after `Kobo.toml` layers are merged:
//! the runtime profile and the ecosystem policies for external crates.
use vstd::prelude::*;
use crate::strings::string_from_chars;
use crate::text::str_equals;

verus! {

/// A copy of an optional string.
pub fn clone_opt_string(value: &Option<String>) -> (r: Option<String>)
    ensures
        r == *value,
{
    match value {
        Some(text) => Some(text.clone()),
        None => None,
    }
}

/// How strictly a program is checked.
#[derive(Clone, Copy, Debug, PartialEq, Eq, Structural)]
pub enum KoboMode {
    Script,
    Checked,
    Strict,
}

/// The mode a file is compiled in: the command line's, else the file's own
/// attribute, else the configuration's.
pub fn effective_mode(cli_mode: Option<KoboMode>, file_mode: Option<KoboMode>, config_mode: KoboMode) -> (mode: KoboMode)
    ensures
        mode == match (cli_mode, file_mode) {
            (Some(m), _) => m,
            (None, Some(m)) => m,
            (None, None) => config_mode,
        },
{
    match cli_mode {
        Some(m) => m,
        None => match file_mode {
            Some(m) => m,
            None => config_mode,
        },
    }
}

/// An owned copy of a string slice.
pub fn owned(text: &str) -> (r: String)
    ensures
        r@ == text@,
{
    let chars = crate::strings::chars_of(text);
    string_from_chars(chars.as_slice())
}

/// How generated runtime code is configured (the `[runtime.profile]` table).
#[derive(Debug)]
pub struct RuntimeProfileConfig {
    pub service_buffer: usize,
    pub service_backpressure: String,
    pub scheduler: String,
    pub record: String,
    pub activity: String,
    pub cancellation: String,
    pub scenario_event_budget: u64,
}

/// The runtime profile as code generation takes it.
#[derive(Debug)]
pub struct RuntimeProfileOptions {
    pub service_buffer: usize,
    pub service_backpressure: String,
    pub scheduler: String,
    pub record: String,
    pub activity: String,
    pub cancellation: String,
    pub scenario_event_budget: u64,
}

impl RuntimeProfileConfig {
    /// The same settings, field for field, as code-generation options.
    pub fn to_codegen_options(&self) -> (options: RuntimeProfileOptions)
        ensures
            options.service_buffer == self.service_buffer,
            options.service_backpressure@ == self.service_backpressure@,
            options.scheduler@ == self.scheduler@,
            options.record@ == self.record@,
            options.activity@ == self.activity@,
            options.cancellation@ == self.cancellation@,
            options.scenario_event_budget == self.scenario_event_budget,
    {
        RuntimeProfileOptions {
            service_buffer: self.service_buffer,
            service_backpressure: self.service_backpressure.clone(),
            scheduler: self.scheduler.clone(),
            record: self.record.clone(),
            activity: self.activity.clone(),
            cancellation: self.cancellation.clone(),
            scenario_event_budget: self.scenario_event_budget,
        }
    }
}

impl Default for RuntimeProfileConfig {
    /// A buffer of 64 that blocks when full, the small random scheduler,
    /// recorded boundary I/O, retried idempotent activities, cancellation from
    /// the scheduler history and a budget of 64 scenario events.
    fn default() -> (profile: Self)
        ensures
            profile.service_buffer == 64,
            profile.service_backpressure@ == "block-on-full"@,
            profile.scheduler@ == "small-random"@,
            profile.record@ == "recorded-boundary-io"@,
            profile.activity@ == "retry-idempotency"@,
            profile.cancellation@ == "scheduler-history"@,
            profile.scenario_event_budget == 64,
    {
        RuntimeProfileConfig {
            service_buffer: 64,
            service_backpressure: owned("block-on-full"),
            scheduler: owned("small-random"),
            record: owned("recorded-boundary-io"),
            activity: owned("retry-idempotency"),
            cancellation: owned("scheduler-history"),
            scenario_event_budget: 64,
        }
    }
}

/// The `[runtime.profile]` table as read: each setting may be absent.
#[derive(Debug)]
pub struct RawRuntimeProfileSection {
    pub service_buffer: Option<usize>,
    pub service_backpressure: Option<String>,
    pub scheduler: Option<String>,
    pub record: Option<String>,
    pub activity: Option<String>,
    pub cancellation: Option<String>,
    pub scenario_event_budget: Option<u64>,
}

/// The value a layer leaves: the layer's own where it sets one.
pub open spec fn layered<T>(layer: Option<T>, current: T) -> T {
    match layer {
        Some(v) => v,
        None => current,
    }
}

impl RawRuntimeProfileSection {
    /// Overrides exactly the settings that this layer gives.
    pub fn apply_to(self, profile: &mut RuntimeProfileConfig)
        ensures
            final(profile).service_buffer == layered(self.service_buffer, old(profile).service_buffer),
            final(profile).service_backpressure == layered(self.service_backpressure, old(profile).service_backpressure),
            final(profile).scheduler == layered(self.scheduler, old(profile).scheduler),
            final(profile).record == layered(self.record, old(profile).record),
            final(profile).activity == layered(self.activity, old(profile).activity),
            final(profile).cancellation == layered(self.cancellation, old(profile).cancellation),
            final(profile).scenario_event_budget == layered(self.scenario_event_budget, old(profile).scenario_event_budget),
    {
        if let Some(service_buffer) = self.service_buffer {
            profile.service_buffer = service_buffer;
        }
        if let Some(service_backpressure) = self.service_backpressure {
            profile.service_backpressure = service_backpressure;
        }
        if let Some(scheduler) = self.scheduler {
            profile.scheduler = scheduler;
        }
        if let Some(record) = self.record {
            profile.record = record;
        }
        if let Some(activity) = self.activity {
            profile.activity = activity;
        }
        if let Some(cancellation) = self.cancellation {
            profile.cancellation = cancellation;
        }
        if let Some(scenario_event_budget) = self.scenario_event_budget {
            profile.scenario_event_budget = scenario_event_budget;
        }
    }
}

/// How an external boundary is handled.
#[derive(Clone, Copy, Debug, PartialEq, Eq, Structural)]
pub enum BoundaryPolicy {
    Typed,
    Model,
    Record,
    Activity,
    Stub,
    Outside,
    Opaque,
    Debt,
    Unselected,
}

/// The policy configured for one external crate.
#[derive(Debug)]
pub struct EcosystemCratePolicy {
    pub name: String,
    pub policy: BoundaryPolicy,
    pub reason: Option<String>,
    pub retry: Option<String>,
}

/// Type metadata published for an external crate.
#[derive(Debug)]
pub struct EcosystemTypesPolicy {
    pub crate_name: String,
    pub package: String,
    pub version: Option<String>,
    pub source: Option<String>,
    pub registry: Option<String>,
    pub checksum: Option<String>,
    pub compatible_crate: Option<String>,
    pub metadata_path: Option<String>,
    pub trust_policy: Option<String>,
    pub signed_by: Option<String>,
    pub validated: bool,
    pub reason: Option<String>,
}

/// A replay adapter configured for an external crate.
#[derive(Debug)]
pub struct EcosystemAdapterPolicy {
    pub crate_name: String,
    pub package: String,
    pub version: Option<String>,
    pub source: Option<String>,
    pub registry: Option<String>,
    pub checksum: Option<String>,
    pub compatible_crate: Option<String>,
    pub metadata_path: Option<String>,
    pub trust_policy: Option<String>,
    pub signed_by: Option<String>,
    pub validated: bool,
    pub confidence: Option<String>,
    pub adapter_runtime: Option<String>,
    pub capture: Option<String>,
    pub reason: Option<String>,
}

/// A behaviour summary file published for an external crate.
#[derive(Debug)]
pub struct EcosystemSummaryPolicy {
    pub crate_name: String,
    pub path: String,
    pub hash: String,
}

/// The ecosystem section after all layers are merged.
#[derive(Debug)]
pub struct EcosystemPolicyConfig {
    pub default: BoundaryPolicy,
    pub default_is_configured: bool,
    pub replay_unknown: BoundaryPolicy,
    pub crates: Vec<EcosystemCratePolicy>,
    pub types: Vec<EcosystemTypesPolicy>,
    pub adapters: Vec<EcosystemAdapterPolicy>,
    pub summaries: Vec<EcosystemSummaryPolicy>,
}

impl Default for EcosystemPolicyConfig {
    /// Opaque boundaries by default, unknown crates replayed as debt, and no
    /// per-crate entries.
    fn default() -> (config: Self)
        ensures
            config.default == BoundaryPolicy::Opaque,
            !config.default_is_configured,
            config.replay_unknown == BoundaryPolicy::Debt,
            config.crates@.len() == 0,
            config.types@.len() == 0,
            config.adapters@.len() == 0,
            config.summaries@.len() == 0,
    {
        EcosystemPolicyConfig {
            default: BoundaryPolicy::Opaque,
            default_is_configured: false,
            replay_unknown: BoundaryPolicy::Debt,
            crates: Vec::new(),
            types: Vec::new(),
            adapters: Vec::new(),
            summaries: Vec::new(),
        }
    }
}

impl EcosystemPolicyConfig {
    /// The first crate entry named `crate_name`.
    pub fn crate_policy(&self, crate_name: &str) -> (r: Option<&EcosystemCratePolicy>)
        ensures
            match r {
                Some(p) => exists|i: int|
                    0 <= i < self.crates@.len() && self.crates@[i] == *p
                        && p.name@ == crate_name@
                        && forall|j: int| 0 <= j < i ==> (#[trigger] self.crates@[j]).name@ != crate_name@,
                None => forall|i: int|
                    0 <= i < self.crates@.len() ==> (#[trigger] self.crates@[i]).name@ != crate_name@,
            },
    {
        let mut i: usize = 0;
        while i < self.crates.len()
            invariant
                i <= self.crates@.len(),
                forall|j: int| 0 <= j < i ==> (#[trigger] self.crates@[j]).name@ != crate_name@,
            decreases self.crates@.len() - i,
        {
            if str_equals(self.crates[i].name.as_str(), crate_name) {
                return Some(&self.crates[i]);
            }
            i = i + 1;
        }
        None
    }

    /// The first adapter entry for `crate_name`.
    pub fn adapter_for(&self, crate_name: &str) -> (r: Option<&EcosystemAdapterPolicy>)
        ensures
            match r {
                Some(p) => exists|i: int|
                    0 <= i < self.adapters@.len() && self.adapters@[i] == *p
                        && p.crate_name@ == crate_name@
                        && forall|j: int| 0 <= j < i ==> (#[trigger] self.adapters@[j]).crate_name@ != crate_name@,
                None => forall|i: int|
                    0 <= i < self.adapters@.len() ==> (#[trigger] self.adapters@[i]).crate_name@ != crate_name@,
            },
    {
        let mut i: usize = 0;
        while i < self.adapters.len()
            invariant
                i <= self.adapters@.len(),
                forall|j: int| 0 <= j < i ==> (#[trigger] self.adapters@[j]).crate_name@ != crate_name@,
            decreases self.adapters@.len() - i,
        {
            if str_equals(self.adapters[i].crate_name.as_str(), crate_name) {
                return Some(&self.adapters[i]);
            }
            i = i + 1;
        }
        None
    }

    /// The first types entry for `crate_name`.
    pub fn types_for(&self, crate_name: &str) -> (r: Option<&EcosystemTypesPolicy>)
        ensures
            match r {
                Some(p) => exists|i: int|
                    0 <= i < self.types@.len() && self.types@[i] == *p
                        && p.crate_name@ == crate_name@
                        && forall|j: int| 0 <= j < i ==> (#[trigger] self.types@[j]).crate_name@ != crate_name@,
                None => forall|i: int|
                    0 <= i < self.types@.len() ==> (#[trigger] self.types@[i]).crate_name@ != crate_name@,
            },
    {
        let mut i: usize = 0;
        while i < self.types.len()
            invariant
                i <= self.types@.len(),
                forall|j: int| 0 <= j < i ==> (#[trigger] self.types@[j]).crate_name@ != crate_name@,
            decreases self.types@.len() - i,
        {
            if str_equals(self.types[i].crate_name.as_str(), crate_name) {
                return Some(&self.types[i]);
            }
            i = i + 1;
        }
        None
    }
}

} // verus!
