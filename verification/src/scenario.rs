//! The parts of a lowered scenario program that the proof evidence reads.
use vstd::prelude::*;
use crate::config::{BoundaryPolicy, EcosystemCratePolicy, EcosystemPolicyConfig, clone_opt_string};

verus! {

/// A byte range of a source file.
#[derive(Clone, Copy, Debug, PartialEq, Eq, Structural)]
pub struct KoboSpan {
    pub file_id: u32,
    pub start: u32,
    pub end: u32,
}

/// Where a lifecycle template comes from.
#[derive(Clone, Copy, Debug, PartialEq, Eq, Structural)]
pub enum LifecycleTemplateSource {
    /// Declared in the program.
    Declaration,
    /// Built in and chosen by inference.
    Inference,
}

/// The lifecycle template that an obligation follows.
#[derive(Debug)]
pub struct ScenarioLifecycleTemplate {
    pub id: String,
    pub kind: String,
    pub template_schema: String,
    pub schema_version: u32,
    pub confidence: String,
    pub source: LifecycleTemplateSource,
    pub lifecycle_owner: String,
    pub cancel_policy: Option<String>,
    pub registry_source: Option<String>,
}

/// How a Core terminator that a scenario records ends its block.
#[derive(Clone, Copy, Debug, PartialEq, Eq, Structural)]
pub enum ScenarioCoreTerminatorKind {
    Return,
    ErrorExit,
    Panic,
    Await,
    OpaqueBoundary,
}

/// What a scenario operation does, as far as the evidence needs it.
#[derive(Debug)]
pub enum ScenarioOpKind {
    /// A binding takes on an obligation of type `obligation_type`, which the
    /// `actions` resolve, following `template` where one is known.
    CreateObligation {
        binding: String,
        obligation_type: String,
        actions: Vec<String>,
        template: Option<ScenarioLifecycleTemplate>,
    },
    /// A binding's obligation is discharged by `action`.
    Discharge { binding: String, action: String },
    /// A binding's obligation is handed on to `callee`.
    Transfer { binding: String, callee: String },
    /// A binding is moved.
    MoveBinding { binding: String },
    /// The function returns.
    Return,
    /// A Core terminator, with the boundary that an opaque one stops at.
    CoreTerminator { kind: ScenarioCoreTerminatorKind, boundary: Option<String> },
    /// A call across an external crate boundary, with the path it calls, the
    /// policy it is handled under and the reason given for it.
    ExternalBoundary { crate_name: String, call_path: Option<String>, policy: BoundaryPolicy, reason: Option<String> },
    /// The start of a loop, with its label if it has one.
    LoopStart { loop_id: String, label: Option<String> },
    /// Any other operation.
    Other,
}

/// One operation of a scenario program, with where it stands in the source.
#[derive(Debug)]
pub struct ScenarioOperation {
    pub kind: ScenarioOpKind,
    pub span: KoboSpan,
}

/// What the scenario lowering could not model.
#[derive(Debug)]
pub struct ScenarioCoverage {
    pub unsupported_constructs: Vec<String>,
    pub opaque_boundaries: Vec<String>,
}

/// A lowered scenario program.
#[derive(Debug)]
pub struct ScenarioProgram {
    pub target: String,
    pub operations: Vec<ScenarioOperation>,
    pub coverage: ScenarioCoverage,
}

/// The first crate entry of `crates` named `name`.
pub open spec fn crate_entry(crates: Seq<EcosystemCratePolicy>, name: Seq<char>) -> Option<EcosystemCratePolicy>
    decreases crates.len(),
{
    if crates.len() == 0 {
        None
    } else if crates[0].name@ == name {
        Some(crates[0])
    } else {
        crate_entry(crates.drop_first(), name)
    }
}

proof fn lemma_crate_entry_at(crates: Seq<EcosystemCratePolicy>, name: Seq<char>, i: int)
    requires
        0 <= i < crates.len(),
        crates[i].name@ == name,
        forall|j: int| 0 <= j < i ==> (#[trigger] crates[j]).name@ != name,
    ensures
        crate_entry(crates, name) == Some(crates[i]),
    decreases i,
{
    if i > 0 {
        let rest = crates.drop_first();
        assert forall|j: int| 0 <= j < i - 1 implies (#[trigger] rest[j]).name@ != name by {
            assert(rest[j] == crates[j + 1]);
        }
        assert(crates[0].name@ != name);
        lemma_crate_entry_at(rest, name, i - 1);
    }
}

proof fn lemma_crate_entry_none(crates: Seq<EcosystemCratePolicy>, name: Seq<char>)
    requires
        forall|j: int| 0 <= j < crates.len() ==> (#[trigger] crates[j]).name@ != name,
    ensures
        crate_entry(crates, name) is None,
    decreases crates.len(),
{
    if crates.len() > 0 {
        let rest = crates.drop_first();
        assert forall|j: int| 0 <= j < rest.len() implies (#[trigger] rest[j]).name@ != name by {
            assert(rest[j] == crates[j + 1]);
        }
        assert(crates[0].name@ != name);
        lemma_crate_entry_none(rest, name);
    }
}

/// The policy and reason a boundary with no selected policy takes from the
/// ecosystem configuration: its crate's entry (keeping a reason it already
/// has), else the configured default, else nothing changes. A boundary whose
/// policy is selected keeps it.
pub open spec fn configured_boundary(config: EcosystemPolicyConfig, crate_name: Seq<char>, policy: BoundaryPolicy, reason: Option<String>) -> (BoundaryPolicy, Option<String>) {
    if policy != BoundaryPolicy::Unselected {
        (policy, reason)
    } else {
        match crate_entry(config.crates@, crate_name) {
            Some(entry) => (entry.policy, if reason is None { entry.reason } else { reason }),
            None => if config.default_is_configured {
                (config.default, reason)
            } else {
                (policy, reason)
            },
        }
    }
}

/// An operation after the ecosystem configuration is applied to it.
pub open spec fn with_ecosystem_policy(op: ScenarioOperation, config: EcosystemPolicyConfig) -> ScenarioOperation {
    match op.kind {
        ScenarioOpKind::ExternalBoundary { crate_name, call_path, policy, reason } => {
            let (p, r) = configured_boundary(config, crate_name@, policy, reason);
            ScenarioOperation { kind: ScenarioOpKind::ExternalBoundary { crate_name, call_path, policy: p, reason: r }, span: op.span }
        },
        _ => op,
    }
}

fn configured_operation(op: ScenarioOperation, config: &EcosystemPolicyConfig) -> (r: ScenarioOperation)
    ensures
        r == with_ecosystem_policy(op, *config),
{
    let span = op.span;
    match op.kind {
        ScenarioOpKind::ExternalBoundary { crate_name, call_path, policy, reason } => {
            if policy != BoundaryPolicy::Unselected {
                return ScenarioOperation { kind: ScenarioOpKind::ExternalBoundary { crate_name, call_path, policy, reason }, span };
            }
            match config.crate_policy(crate_name.as_str()) {
                Some(entry) => {
                    proof {
                        let i = choose|i: int| 0 <= i < config.crates@.len() && config.crates@[i] == *entry
                            && entry.name@ == crate_name@
                            && forall|j: int| 0 <= j < i ==> (#[trigger] config.crates@[j]).name@ != crate_name@;
                        lemma_crate_entry_at(config.crates@, crate_name@, i);
                    }
                    let new_reason = match reason {
                        Some(r) => Some(r),
                        None => clone_opt_string(&entry.reason),
                    };
                    ScenarioOperation {
                        kind: ScenarioOpKind::ExternalBoundary { crate_name, call_path, policy: entry.policy, reason: new_reason },
                        span,
                    }
                },
                None => {
                    proof {
                        lemma_crate_entry_none(config.crates@, crate_name@);
                    }
                    let new_policy = if config.default_is_configured { config.default } else { policy };
                    ScenarioOperation { kind: ScenarioOpKind::ExternalBoundary { crate_name, call_path, policy: new_policy, reason }, span }
                },
            }
        },
        other => ScenarioOperation { kind: other, span },
    }
}

/// Applies the ecosystem configuration to every external boundary of the
/// program that has no selected policy.
pub fn apply_ecosystem_policy(program: &mut ScenarioProgram, policy: &EcosystemPolicyConfig)
    ensures
        final(program).target == old(program).target,
        final(program).coverage == old(program).coverage,
        final(program).operations@ == old(program).operations@.map_values(|op: ScenarioOperation| with_ecosystem_policy(op, *policy)),
{
    let mut pending: Vec<ScenarioOperation> = Vec::new();
    std::mem::swap(&mut pending, &mut program.operations);
    let ghost original = pending@;
    let mut done: Vec<ScenarioOperation> = Vec::new();
    while pending.len() > 0
        invariant
            done@.len() + pending@.len() == original.len(),
            pending@ == original.skip(done@.len() as int),
            forall|k: int| 0 <= k < done@.len() ==> done@[k] == with_ecosystem_policy(original[k], *policy),
        decreases pending@.len(),
    {
        let ghost before = pending@;
        let op = pending.remove(0);
        proof {
            assert(op == original[done@.len() as int]);
            assert(pending@ =~= original.skip(done@.len() + 1int));
        }
        let updated = configured_operation(op, policy);
        done.push(updated);
    }
    proof {
        assert(done@ =~= original.map_values(|op: ScenarioOperation| with_ecosystem_policy(op, *policy)));
    }
    program.operations = done;
}

/// The programs with the ecosystem configuration applied to each.
pub fn scenario_programs_with_ecosystem_policy(programs: Vec<ScenarioProgram>, policy: &EcosystemPolicyConfig) -> (r: Vec<ScenarioProgram>)
    ensures
        r@.len() == programs@.len(),
        forall|k: int| 0 <= k < r@.len() ==> (#[trigger] r@[k]).target == programs@[k].target
            && r@[k].coverage == programs@[k].coverage
            && r@[k].operations@ == programs@[k].operations@.map_values(|op: ScenarioOperation| with_ecosystem_policy(op, *policy)),
{
    let ghost original = programs@;
    let mut pending = programs;
    let mut done: Vec<ScenarioProgram> = Vec::new();
    while pending.len() > 0
        invariant
            done@.len() + pending@.len() == original.len(),
            pending@ == original.skip(done@.len() as int),
            forall|k: int| 0 <= k < done@.len() ==> (#[trigger] done@[k]).target == original[k].target
                && done@[k].coverage == original[k].coverage
                && done@[k].operations@ == original[k].operations@.map_values(|op: ScenarioOperation| with_ecosystem_policy(op, *policy)),
        decreases pending@.len(),
    {
        let mut program = pending.remove(0);
        proof {
            assert(program == original[done@.len() as int]);
            assert(pending@ =~= original.skip(done@.len() + 1int));
        }
        apply_ecosystem_policy(&mut program, policy);
        done.push(program);
    }
    done
}

} // verus!
