//! Lifecycle templates of a scenario program: which template and obligation
//! type each binding was created with, the versions and hashes that evidence
//! records of a template, and its schema evidence.
use vstd::prelude::*;
use crate::scenario::{LifecycleTemplateSource, ScenarioLifecycleTemplate, ScenarioOpKind,
    ScenarioOperation, ScenarioProgram};
use crate::source_spans::{SourceSpan, byte_boundary, clamp_offset, source_span_from_kobo,
    line_of_offset, snippet_at, chars_before_byte};
use crate::strings::{decimal_text, push_decimal};
use crate::text::{str_equals, str_less, seq_less, utf8_len, lemma_seq_less_irreflexive,
    lemma_seq_less_transitive, lemma_seq_less_total};
use crate::config::{clone_opt_string, owned};
use crate::manifest::{fnv1a, hex_digits, stable_hash};

verus! {

/// A named hash recorded in a certificate.
#[derive(Debug)]
pub struct HashEvidence {
    pub id: String,
    pub hash: String,
}

/// Where an invariant's template comes from, as evidence records it.
#[derive(Clone, Copy, Debug, PartialEq, Eq, Structural)]
pub enum InvariantTemplateSource {
    Declaration,
    BuiltIn,
}

/// The obligation type that the last operation creating `binding` gave it.
pub open spec fn type_of(ops: Seq<ScenarioOperation>, binding: Seq<char>) -> Option<Seq<char>>
    decreases ops.len(),
{
    if ops.len() == 0 {
        None
    } else {
        match ops.last().kind {
            ScenarioOpKind::CreateObligation { binding: b, obligation_type, .. } => if b@ == binding {
                Some(obligation_type@)
            } else {
                type_of(ops.drop_last(), binding)
            },
            _ => type_of(ops.drop_last(), binding),
        }
    }
}

/// The template of the last operation that created `binding` with a template.
pub open spec fn template_of(ops: Seq<ScenarioOperation>, binding: Seq<char>) -> Option<ScenarioLifecycleTemplate>
    decreases ops.len(),
{
    if ops.len() == 0 {
        None
    } else {
        match ops.last().kind {
            ScenarioOpKind::CreateObligation { binding: b, template: Some(t), .. } => if b@ == binding {
                Some(t)
            } else {
                template_of(ops.drop_last(), binding)
            },
            _ => template_of(ops.drop_last(), binding),
        }
    }
}

/// The obligation type `binding` was created with in `program`.
pub fn type_for_binding<'a>(program: &'a ScenarioProgram, binding: &str) -> (r: Option<&'a String>)
    ensures
        match r {
            Some(t) => type_of(program.operations@, binding@) == Some(t@),
            None => type_of(program.operations@, binding@) is None,
        },
{
    let ops = &program.operations;
    let mut i = ops.len();
    proof {
        assert(ops@.take(i as int) =~= ops@);
    }
    while i > 0
        invariant
            i <= ops@.len(),
            ops@ == program.operations@,
            type_of(ops@.take(i as int), binding@) == type_of(ops@, binding@),
        decreases i,
    {
        proof {
            assert(ops@.take(i as int).drop_last() =~= ops@.take(i - 1));
            assert(ops@.take(i as int).last() == ops@[i - 1]);
        }
        match &ops[i - 1].kind {
            ScenarioOpKind::CreateObligation { binding: b, obligation_type, .. } => {
                if str_equals(b.as_str(), binding) {
                    return Some(obligation_type);
                }
            },
            _ => {},
        }
        i = i - 1;
    }
    None
}

/// The lifecycle template `binding` was created with in `program`.
pub fn template_for_binding<'a>(program: &'a ScenarioProgram, binding: &str) -> (r: Option<&'a ScenarioLifecycleTemplate>)
    ensures
        match r {
            Some(t) => template_of(program.operations@, binding@) == Some(*t),
            None => template_of(program.operations@, binding@) is None,
        },
{
    let ops = &program.operations;
    let mut i = ops.len();
    proof {
        assert(ops@.take(i as int) =~= ops@);
    }
    while i > 0
        invariant
            i <= ops@.len(),
            ops@ == program.operations@,
            template_of(ops@.take(i as int), binding@) == template_of(ops@, binding@),
        decreases i,
    {
        proof {
            assert(ops@.take(i as int).drop_last() =~= ops@.take(i - 1));
            assert(ops@.take(i as int).last() == ops@[i - 1]);
        }
        match &ops[i - 1].kind {
            ScenarioOpKind::CreateObligation { binding: b, template: Some(t), .. } => {
                if str_equals(b.as_str(), binding) {
                    return Some(t);
                }
            },
            _ => {},
        }
        i = i - 1;
    }
    None
}

/// The version evidence gives a template: built-in templates are version
/// `0.1`, declared ones their schema version.
pub open spec fn template_version(template: ScenarioLifecycleTemplate) -> Seq<char> {
    match template.source {
        LifecycleTemplateSource::Inference => "0.1"@,
        LifecycleTemplateSource::Declaration => decimal_text(template.schema_version as nat),
    }
}

/// The version evidence gives a template.
pub fn lifecycle_template_version(template: &ScenarioLifecycleTemplate) -> (r: String)
    ensures
        r@ == template_version(*template),
{
    match template.source {
        LifecycleTemplateSource::Inference => owned("0.1"),
        LifecycleTemplateSource::Declaration => {
            let mut out = String::new();
            push_decimal(&mut out, template.schema_version as u64);
            proof {
                assert(out@ =~= decimal_text(template.schema_version as nat));
            }
            out
        },
    }
}

/// The first hash recorded for `id`.
pub open spec fn hash_for(hashes: Seq<HashEvidence>, id: Seq<char>) -> Option<Seq<char>>
    decreases hashes.len(),
{
    if hashes.len() == 0 {
        None
    } else if hashes[0].id@ == id {
        Some(hashes[0].hash@)
    } else {
        hash_for(hashes.drop_first(), id)
    }
}

/// The hash of a template: the first one recorded for its id, else the
/// stable hash of its id.
pub open spec fn template_hash_text(hashes: Seq<HashEvidence>, id: Seq<char>) -> Seq<char> {
    match hash_for(hashes, id) {
        Some(h) => h,
        None => hex_digits(fnv1a(vstd::utf8::encode_utf8(id)) as nat, 16),
    }
}

/// The schema hash of a template: the first one recorded for its id, else
/// the stable hash of its id.
pub fn template_hash(template: &ScenarioLifecycleTemplate, template_hashes: &[HashEvidence]) -> (r: String)
    ensures
        r@ == template_hash_text(template_hashes@, template.id@),
{
    let mut i: usize = 0;
    proof {
        assert(template_hashes@.skip(0) =~= template_hashes@);
    }
    while i < template_hashes.len()
        invariant
            i <= template_hashes@.len(),
            hash_for(template_hashes@.skip(i as int), template.id@) == hash_for(template_hashes@, template.id@),
        decreases template_hashes@.len() - i,
    {
        proof {
            assert(template_hashes@.skip(i as int).drop_first() =~= template_hashes@.skip(i + 1));
        }
        if str_equals(template_hashes[i].id.as_str(), template.id.as_str()) {
            return template_hashes[i].hash.clone();
        }
        i = i + 1;
    }
    stable_hash(template.id.as_str())
}

/// Where evidence says an invariant's template comes from.
pub open spec fn template_source_of(source: LifecycleTemplateSource) -> InvariantTemplateSource {
    match source {
        LifecycleTemplateSource::Declaration => InvariantTemplateSource::Declaration,
        LifecycleTemplateSource::Inference => InvariantTemplateSource::BuiltIn,
    }
}

/// Where evidence says an invariant's template comes from.
pub fn invariant_template_source(source: &LifecycleTemplateSource) -> (r: InvariantTemplateSource)
    ensures
        r == template_source_of(*source),
{
    match source {
        LifecycleTemplateSource::Declaration => InvariantTemplateSource::Declaration,
        LifecycleTemplateSource::Inference => InvariantTemplateSource::BuiltIn,
    }
}

/// The owner of the lifecycle that a built-in template describes; other
/// template ids name their owner themselves.
pub open spec fn owner_of(template_id: Seq<char>) -> Seq<char> {
    if template_id == "queue_delivery"@ {
        "queue"@
    } else if template_id == "transaction"@ {
        "transaction_manager"@
    } else if template_id == "stream_item"@ {
        "stream"@
    } else if template_id == "retry_attempt"@ {
        "retry_policy"@
    } else if template_id == "handler_reply"@ {
        "service_request"@
    } else if template_id == "spawned_task"@ {
        "task_runtime"@
    } else if template_id == "lock_permit"@ {
        "lock"@
    } else if template_id == "file_socket"@ {
        "io_resource"@
    } else {
        template_id
    }
}

/// The owner of the lifecycle that a template describes.
pub fn lifecycle_owner(template_id: &str) -> (r: String)
    ensures
        r@ == owner_of(template_id@),
{
    if str_equals(template_id, "queue_delivery") {
        owned("queue")
    } else if str_equals(template_id, "transaction") {
        owned("transaction_manager")
    } else if str_equals(template_id, "stream_item") {
        owned("stream")
    } else if str_equals(template_id, "retry_attempt") {
        owned("retry_policy")
    } else if str_equals(template_id, "handler_reply") {
        owned("service_request")
    } else if str_equals(template_id, "spawned_task") {
        owned("task_runtime")
    } else if str_equals(template_id, "lock_permit") {
        owned("lock")
    } else if str_equals(template_id, "file_socket") {
        owned("io_resource")
    } else {
        owned(template_id)
    }
}

/// The schema of a lifecycle template as a certificate records it.
#[derive(Debug)]
pub struct TemplateSchemaEvidence {
    pub id: String,
    pub kind: String,
    pub template_schema: String,
    pub schema_version: u32,
    pub confidence: String,
    pub source: String,
    pub lifecycle_owner: String,
    pub cancel_policy: Option<String>,
    pub registry_source: Option<String>,
    pub source_span: SourceSpan,
}

/// The operations that create an obligation with a template, with the template.
pub open spec fn templated_ops(ops: Seq<ScenarioOperation>) -> Seq<(ScenarioLifecycleTemplate, crate::scenario::KoboSpan)>
    decreases ops.len(),
{
    if ops.len() == 0 {
        Seq::empty()
    } else {
        let prev = templated_ops(ops.drop_last());
        match ops.last().kind {
            ScenarioOpKind::CreateObligation { template: Some(t), .. } => prev.push((t, ops.last().span)),
            _ => prev,
        }
    }
}

/// Every template-creating operation's span starts on a character boundary of `source`.
pub open spec fn template_spans_in(ops: Seq<ScenarioOperation>, source: Seq<char>) -> bool {
    forall|i: int| 0 <= i < ops.len() && ((#[trigger] ops[i]).kind matches ScenarioOpKind::CreateObligation { template: Some(_), .. })
        ==> byte_boundary(source, clamp_offset(source, ops[i].span.start as int))
}

/// The word evidence uses for where a template comes from.
pub open spec fn source_word(source: LifecycleTemplateSource) -> Seq<char> {
    match source {
        LifecycleTemplateSource::Declaration => "declaration"@,
        LifecycleTemplateSource::Inference => "built_in"@,
    }
}

/// `span` is the source span of the Kobo byte range `kobo` of `source`.
pub open spec fn kobo_span_of(span: SourceSpan, path: Seq<char>, source: Seq<char>, kobo: crate::scenario::KoboSpan) -> bool {
    &&& span.path@ == path
    &&& span.start as int == clamp_offset(source, kobo.start as int)
    &&& span.end as int == clamp_offset(source, if kobo.end > span.start + 1 { kobo.end as int } else { span.start + 1 })
    &&& span.mapped == (span.end > span.start)
    &&& span.line == line_of_offset(source, kobo.start as int)
    &&& span.snippet@ == snippet_at(source, chars_before_byte(source, span.start as int))
}

/// `schema` records `template`, created at `kobo` in `source`.
pub open spec fn schema_of(schema: TemplateSchemaEvidence, template: ScenarioLifecycleTemplate, path: Seq<char>, source: Seq<char>, kobo: crate::scenario::KoboSpan) -> bool {
    &&& schema.id == template.id
    &&& schema.kind == template.kind
    &&& schema.template_schema == template.template_schema
    &&& schema.schema_version == template.schema_version
    &&& schema.confidence == template.confidence
    &&& schema.source@ == source_word(template.source)
    &&& schema.lifecycle_owner == template.lifecycle_owner
    &&& schema.cancel_policy == template.cancel_policy
    &&& schema.registry_source == template.registry_source
    &&& kobo_span_of(schema.source_span, path, source, kobo)
}

/// The schema evidence of every template the program's operations create
/// obligations with, in operation order.
pub fn template_schemas(source_path: &str, source: &str, program: &ScenarioProgram) -> (schemas: Vec<TemplateSchemaEvidence>)
    requires
        utf8_len(source@) < usize::MAX,
        template_spans_in(program.operations@, source@),
    ensures
        schemas@.len() == templated_ops(program.operations@).len(),
        forall|k: int| 0 <= k < schemas@.len() ==> schema_of(#[trigger] schemas@[k],
            templated_ops(program.operations@)[k].0, source_path@, source@,
            templated_ops(program.operations@)[k].1),
{
    let ops = &program.operations;
    let mut schemas: Vec<TemplateSchemaEvidence> = Vec::new();
    let mut i: usize = 0;
    while i < ops.len()
        invariant
            i <= ops@.len(),
            ops@ == program.operations@,
            utf8_len(source@) < usize::MAX,
            template_spans_in(ops@, source@),
            schemas@.len() == templated_ops(ops@.take(i as int)).len(),
            forall|k: int| 0 <= k < schemas@.len() ==> schema_of(#[trigger] schemas@[k],
                templated_ops(ops@.take(i as int))[k].0, source_path@, source@,
                templated_ops(ops@.take(i as int))[k].1),
        decreases ops@.len() - i,
    {
        proof {
            assert(ops@.take(i + 1).drop_last() =~= ops@.take(i as int));
            assert(ops@.take(i + 1).last() == ops@[i as int]);
        }
        let operation = &ops[i];
        match &operation.kind {
            ScenarioOpKind::CreateObligation { template: Some(template), .. } => {
                let word = match template.source {
                    LifecycleTemplateSource::Declaration => owned("declaration"),
                    LifecycleTemplateSource::Inference => owned("built_in"),
                };
                let schema = TemplateSchemaEvidence {
                    id: template.id.clone(),
                    kind: template.kind.clone(),
                    template_schema: template.template_schema.clone(),
                    schema_version: template.schema_version,
                    confidence: template.confidence.clone(),
                    source: word,
                    lifecycle_owner: template.lifecycle_owner.clone(),
                    cancel_policy: clone_opt_string(&template.cancel_policy),
                    registry_source: clone_opt_string(&template.registry_source),
                    source_span: source_span_from_kobo(source_path, source, operation.span),
                };
                schemas.push(schema);
            },
            _ => {},
        }
        i = i + 1;
    }
    proof {
        assert(ops@.take(i as int) =~= ops@);
    }
    schemas
}

/// The schema evidence of the program's templates and, beside it, the hash of
/// each schema under its template's id. `schema_hashes` holds the hash of each
/// schema that `template_schemas` gives, in the same order.
pub fn template_evidence(source_path: &str, source: &str, program: &ScenarioProgram, schema_hashes: &[String]) -> (r: (Vec<HashEvidence>, Vec<TemplateSchemaEvidence>))
    requires
        utf8_len(source@) < usize::MAX,
        template_spans_in(program.operations@, source@),
        schema_hashes@.len() == templated_ops(program.operations@).len(),
    ensures
        r.1@.len() == templated_ops(program.operations@).len(),
        forall|k: int| 0 <= k < r.1@.len() ==> schema_of(#[trigger] r.1@[k],
            templated_ops(program.operations@)[k].0, source_path@, source@,
            templated_ops(program.operations@)[k].1),
        r.0@.len() == r.1@.len(),
        forall|k: int| 0 <= k < r.0@.len() ==> (#[trigger] r.0@[k]).id == r.1@[k].id
            && r.0@[k].hash == schema_hashes@[k],
{
    let schemas = template_schemas(source_path, source, program);
    let mut hashes: Vec<HashEvidence> = Vec::new();
    let mut k: usize = 0;
    while k < schemas.len()
        invariant
            k <= schemas@.len(),
            schemas@.len() == schema_hashes@.len(),
            hashes@.len() == k,
            forall|j: int| 0 <= j < k ==> (#[trigger] hashes@[j]).id == schemas@[j].id
                && hashes@[j].hash == schema_hashes@[j],
        decreases schemas@.len() - k,
    {
        hashes.push(HashEvidence { id: schemas[k].id.clone(), hash: schema_hashes[k].clone() });
        k = k + 1;
    }
    (hashes, schemas)
}

/// The texts of a list of strings.
pub open spec fn texts(v: Seq<String>) -> Seq<Seq<char>> {
    v.map_values(|x: String| x@)
}

/// Each text sorts strictly before the next.
pub open spec fn sorted_strict(v: Seq<Seq<char>>) -> bool {
    forall|i: int, j: int| 0 <= i < j < v.len() ==> seq_less(#[trigger] v[i], #[trigger] v[j])
}

/// Adds `item` to a strictly sorted list of strings unless it is there already.
pub fn insert_sorted(v: &mut Vec<String>, item: String)
    requires
        sorted_strict(texts(old(v)@)),
    ensures
        sorted_strict(texts(final(v)@)),
        forall|x: Seq<char>| texts(final(v)@).contains(x) <==> (texts(old(v)@).contains(x) || x == item@),
{
    let ghost before = texts(v@);
    let mut i: usize = 0;
    while i < v.len() && str_less(v[i].as_str(), item.as_str())
        invariant
            i <= v@.len(),
            texts(v@) == before,
            forall|k: int| 0 <= k < i ==> seq_less(#[trigger] texts(v@)[k], item@),
        decreases v@.len() - i,
    {
        i = i + 1;
    }
    if i < v.len() && str_equals(v[i].as_str(), item.as_str()) {
        proof {
            assert(texts(v@)[i as int] == item@);
        }
        return;
    }
    proof {
        if i < v@.len() {
            lemma_seq_less_total(before[i as int], item@);
            assert forall|k: int| i <= k < before.len() implies seq_less(item@, #[trigger] before[k]) by {
                if k > i {
                    lemma_seq_less_transitive(item@, before[i as int], before[k]);
                }
            }
        }
    }
    v.insert(i, item);
    proof {
        let after = texts(v@);
        assert(after =~= before.insert(i as int, item@));
        assert forall|a: int, b: int| 0 <= a < b < after.len() implies seq_less(#[trigger] after[a], #[trigger] after[b]) by {
            if b < i {
            } else if b == i {
            } else if a < i {
                assert(seq_less(before[b - 1], item@) || seq_less(item@, before[b - 1]));
                lemma_seq_less_transitive(after[a], item@, after[b]);
            } else if a == i {
            } else {
            }
        }
        assert forall|x: Seq<char>| after.contains(x) <==> (before.contains(x) || x == item@) by {
            if after.contains(x) {
                let k = choose|k: int| 0 <= k < after.len() && after[k] == x;
                if k < i {
                    assert(before[k] == x);
                } else if k > i {
                    assert(before[k - 1] == x);
                }
            }
            if before.contains(x) {
                let k = choose|k: int| 0 <= k < before.len() && before[k] == x;
                if k < i {
                    assert(after[k] == x);
                } else {
                    assert(after[k + 1] == x);
                }
            }
            if x == item@ {
                assert(after[i as int] == x);
            }
        }
    }
}

/// An operation among `ops` creates `binding`.
pub open spec fn creates(ops: Seq<ScenarioOperation>, binding: Seq<char>) -> bool {
    exists|j: int| 0 <= j < ops.len() && ((#[trigger] ops[j]).kind matches ScenarioOpKind::CreateObligation { binding: b, .. } && b@ == binding)
}

pub proof fn lemma_type_of_created(ops: Seq<ScenarioOperation>, binding: Seq<char>)
    ensures
        type_of(ops, binding) is Some ==> creates(ops, binding),
    decreases ops.len(),
{
    if ops.len() > 0 {
        lemma_type_of_created(ops.drop_last(), binding);
        if type_of(ops.drop_last(), binding) is Some && creates(ops.drop_last(), binding) {
            let j = choose|j: int| 0 <= j < ops.drop_last().len() && ((#[trigger] ops.drop_last()[j]).kind matches ScenarioOpKind::CreateObligation { binding: b, .. } && b@ == binding);
            assert(ops[j] == ops.drop_last()[j]);
        }
        if type_of(ops, binding) is Some {
            match ops.last().kind {
                ScenarioOpKind::CreateObligation { binding: b, .. } => {
                    if b@ == binding {
                        assert(ops[ops.len() - 1] == ops.last());
                    }
                },
                _ => {},
            }
        }
    }
}

/// The bindings whose obligation type is `kind`, sorted and without repeats.
pub fn bindings_of_type(program: &ScenarioProgram, kind: &str) -> (r: Vec<String>)
    ensures
        sorted_strict(texts(r@)),
        forall|x: Seq<char>| texts(r@).contains(x) <==> type_of(program.operations@, x) == Some(kind@),
{
    let ops = &program.operations;
    let mut found: Vec<String> = Vec::new();
    let mut i: usize = 0;
    while i < ops.len()
        invariant
            i <= ops@.len(),
            ops@ == program.operations@,
            sorted_strict(texts(found@)),
            forall|x: Seq<char>| texts(found@).contains(x) <==> (creates(ops@.take(i as int), x)
                && type_of(ops@, x) == Some(kind@)),
        decreases ops@.len() - i,
    {
        proof {
            assert forall|x: Seq<char>| creates(ops@.take(i as int), x) implies creates(ops@.take(i + 1), x) by {
                if creates(ops@.take(i as int), x) {
                    let j = choose|j: int| 0 <= j < ops@.take(i as int).len() && ((#[trigger] ops@.take(i as int)[j]).kind matches ScenarioOpKind::CreateObligation { binding: b, .. } && b@ == x);
                    assert(ops@.take(i + 1)[j] == ops@.take(i as int)[j]);
                }
            }
            assert forall|x: Seq<char>| creates(ops@.take(i + 1), x) implies (creates(ops@.take(i as int), x)
                || (ops@[i as int].kind matches ScenarioOpKind::CreateObligation { binding: b, .. } && b@ == x)) by {
                if creates(ops@.take(i + 1), x) {
                    let j = choose|j: int| 0 <= j < ops@.take(i + 1).len() && ((#[trigger] ops@.take(i + 1)[j]).kind matches ScenarioOpKind::CreateObligation { binding: b, .. } && b@ == x);
                    if j < i {
                        assert(ops@.take(i as int)[j] == ops@.take(i + 1)[j]);
                    }
                }
            }
        }
        match &ops[i].kind {
            ScenarioOpKind::CreateObligation { binding, .. } => {
                proof {
                    assert(ops@.take(i + 1)[i as int] == ops@[i as int]);
                }
                match type_for_binding(program, binding.as_str()) {
                    Some(t) => {
                        if str_equals(t.as_str(), kind) {
                            insert_sorted(&mut found, binding.clone());
                        }
                    },
                    None => {},
                }
            },
            _ => {},
        }
        i = i + 1;
    }
    proof {
        assert(ops@.take(i as int) =~= ops@);
        assert forall|x: Seq<char>| type_of(ops@, x) == Some(kind@) implies creates(ops@, x) by {
            lemma_type_of_created(ops@, x);
        }
    }
    found
}

} // verus!
