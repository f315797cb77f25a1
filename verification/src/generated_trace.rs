//! The generated-Rust trace: each Core trace event matched, in order, to an
//! unused event of the source map's lowering trace, with where it was lowered
//! to in the generated file and where it stands in the Kobo source.
use vstd::prelude::*;
use crate::config::{clone_opt_string, owned};
use crate::core_cfg::opt_chars;
use crate::evidence::TraceEventKind;
use crate::proof_events::{kind_text, trace_kind_name};
use crate::scenario::{KoboSpan, ScenarioProgram};
use crate::source_spans::{SourceSpan, byte_boundary, chars_before_byte, line_of_offset, line_snippet,
    one_based_line_for_offset, snippet_at};
use crate::sourcemap::{KoboSourceMap, LoweringTraceEvent};
use crate::text::{str_equals, utf8_len};
use crate::traces::CoreTraceEvent;

verus! {

/// How a trace event's source-map anchor was found.
#[derive(Clone, Copy, Debug, PartialEq, Eq, Structural)]
pub enum SourceMapAnchorStatus {
    Mapped,
}

/// Where a generated trace event is anchored: the source-map entry, its
/// span in the generated file and its span in the Kobo source.
#[derive(Debug)]
pub struct SourceMapAnchorEvidence {
    pub id: String,
    pub status: SourceMapAnchorStatus,
    pub generated_span: SourceSpan,
    pub kobo_span: SourceSpan,
}

/// One event of the generated-Rust trace.
#[derive(Debug)]
pub struct GeneratedTraceEvent {
    pub id: String,
    pub core_event_id: String,
    pub kind: TraceEventKind,
    pub binding: Option<String>,
    pub order: u64,
    pub source_map_anchor: SourceMapAnchorEvidence,
    pub lowering_phase: String,
    pub template_id: Option<String>,
    pub template_version: Option<String>,
}

/// Lowering event `l` stands for Core trace event `event` of function
/// `target`: same Core event id, function, kind, binding and order.
pub open spec fn lowers(l: LoweringTraceEvent, event: CoreTraceEvent, target: Seq<char>) -> bool {
    &&& l.core_event_id@ == event.id@
    &&& l.function@ == target
    &&& l.kind@ == kind_text(event.kind)
    &&& opt_chars(l.binding) == opt_chars(event.binding)
    &&& l.order == event.order
}

/// How far a lowering event's Kobo start lies from the Core event's start
/// (taken as a 32-bit offset).
pub open spec fn start_distance(l: LoweringTraceEvent, event: CoreTraceEvent) -> int {
    let a = l.kobo_span.start as int;
    let b = (event.source_span.start as u32) as int;
    if a >= b { a - b } else { b - a }
}

/// Among the first `n` lowering events, the first unused one of those that
/// stand for `event` whose start lies nearest to it.
pub open spec fn nearest_lowering(lowering: Seq<LoweringTraceEvent>, event: CoreTraceEvent, target: Seq<char>, used: Set<int>, n: int) -> Option<int>
    decreases n,
{
    if n <= 0 {
        None
    } else {
        let prev = nearest_lowering(lowering, event, target, used, n - 1);
        if !used.contains(n - 1) && lowers(lowering[n - 1], event, target) && match prev {
            None => true,
            Some(b) => start_distance(lowering[n - 1], event) < start_distance(lowering[b], event),
        } {
            Some(n - 1)
        } else {
            prev
        }
    }
}

/// Matching the first `n` Core trace events in order, each to its nearest
/// unused lowering event: the (Core, lowering) positions matched, and the
/// lowering events used.
pub open spec fn matched_upto(core: Seq<CoreTraceEvent>, lowering: Seq<LoweringTraceEvent>, target: Seq<char>, n: int) -> (Seq<(int, int)>, Set<int>)
    decreases n,
{
    if n <= 0 {
        (Seq::empty(), Set::empty())
    } else {
        let (m, used) = matched_upto(core, lowering, target, n - 1);
        match nearest_lowering(lowering, core[n - 1], target, used, lowering.len() as int) {
            Some(j) => (m.push((n - 1, j)), used.insert(j)),
            None => (m, used),
        }
    }
}

/// Each Core event is matched to a lowering event that stands for it.
pub proof fn lemma_matched_lowers(core: Seq<CoreTraceEvent>, lowering: Seq<LoweringTraceEvent>, target: Seq<char>, n: int)
    requires
        0 <= n <= core.len(),
    ensures
        forall|k: int| 0 <= k < matched_upto(core, lowering, target, n).0.len() ==> {
            let p = #[trigger] matched_upto(core, lowering, target, n).0[k];
            &&& 0 <= p.0 < n
            &&& 0 <= p.1 < lowering.len()
            &&& lowers(lowering[p.1], core[p.0], target)
        },
    decreases n,
{
    if n > 0 {
        lemma_matched_lowers(core, lowering, target, n - 1);
        let (m, used) = matched_upto(core, lowering, target, n - 1);
        lemma_nearest_in_range(lowering, core[n - 1], target, used, lowering.len() as int);
        let next = matched_upto(core, lowering, target, n).0;
        assert forall|k: int| 0 <= k < next.len() implies {
            let p = #[trigger] next[k];
            &&& 0 <= p.0 < n
            &&& 0 <= p.1 < lowering.len()
            &&& lowers(lowering[p.1], core[p.0], target)
        } by {
            if k < m.len() {
                assert(next[k] == m[k]);
            }
        }
    }
}

/// The Kobo span of an anchor: from the lowering event's start to its end,
/// at least one byte long, with the line and snippet of its start (clamped
/// to the source).
pub open spec fn anchor_kobo_span(s: SourceSpan, path: Seq<char>, source: Seq<char>, span: KoboSpan) -> bool {
    let start = span.start as int;
    let end = if span.end as int > start + 1 { span.end as int } else { start + 1 };
    let bounded = if start < utf8_len(source) { start } else { utf8_len(source) as int };
    &&& s.path@ == path
    &&& s.start == start
    &&& s.end == end
    &&& s.mapped
    &&& s.line == line_of_offset(source, bounded)
    &&& s.snippet@ == snippet_at(source, chars_before_byte(source, bounded))
}

/// `g` is the generated trace event of Core event `event`, anchored at
/// lowering event `l` of the map for generated file `file`.
pub open spec fn generated_event_is(g: GeneratedTraceEvent, event: CoreTraceEvent, l: LoweringTraceEvent, file: Seq<char>, path: Seq<char>, source: Seq<char>) -> bool {
    &&& g.id@ == "generated-"@ + event.id@
    &&& g.core_event_id@ == l.core_event_id@
    &&& g.kind == event.kind
    &&& opt_chars(g.binding) == opt_chars(event.binding)
    &&& g.order == l.order
    &&& g.source_map_anchor.id@ == l.source_map_entry_id@
    &&& g.source_map_anchor.status == SourceMapAnchorStatus::Mapped
    &&& g.source_map_anchor.generated_span.path@ == file
    &&& g.source_map_anchor.generated_span.line == l.rs_span.line
    &&& g.source_map_anchor.generated_span.start == l.rs_span.column_start
    &&& g.source_map_anchor.generated_span.end == l.rs_span.column_end
    &&& g.source_map_anchor.generated_span.mapped
    &&& g.source_map_anchor.generated_span.snippet@ == Seq::<char>::empty()
    &&& anchor_kobo_span(g.source_map_anchor.kobo_span, path, source, l.kobo_span)
    &&& g.lowering_phase@ == l.lowering_phase@
    &&& opt_chars(g.template_id) == match opt_chars(l.template_id) {
        Some(t) => Some(t),
        None => opt_chars(event.template_id),
    }
    &&& opt_chars(g.template_version) == match opt_chars(l.template_version) {
        Some(t) => Some(t),
        None => opt_chars(event.template_version),
    }
}

/// Lowering event `l` starts below the largest 32-bit offset, and on a
/// character of `source` (or past its end).
pub open spec fn starts_in(l: LoweringTraceEvent, source: Seq<char>) -> bool {
    &&& l.kobo_span.start < u32::MAX
    &&& byte_boundary(source, if (l.kobo_span.start as int) < utf8_len(source) {
            l.kobo_span.start as int
        } else {
            utf8_len(source) as int
        })
}

/// Every lowering event that some Core trace event is matched to starts in
/// `source`.
pub open spec fn matched_starts_in(core: Seq<CoreTraceEvent>, lowering: Seq<LoweringTraceEvent>, target: Seq<char>, source: Seq<char>) -> bool {
    let matched = matched_upto(core, lowering, target, core.len() as int).0;
    forall|k: int| 0 <= k < matched.len() ==> starts_in(lowering[#[trigger] matched[k].1], source)
}

proof fn lemma_matched_prefix(core: Seq<CoreTraceEvent>, lowering: Seq<LoweringTraceEvent>, target: Seq<char>, i: int, n: int)
    requires
        0 <= i <= n,
    ensures
        matched_upto(core, lowering, target, i).0.len() <= matched_upto(core, lowering, target, n).0.len(),
        forall|k: int| 0 <= k < matched_upto(core, lowering, target, i).0.len()
            ==> matched_upto(core, lowering, target, n).0[k] == #[trigger] matched_upto(core, lowering, target, i).0[k],
    decreases n - i,
{
    if i < n {
        lemma_matched_prefix(core, lowering, target, i, n - 1);
        let prev = matched_upto(core, lowering, target, n - 1);
        let next = matched_upto(core, lowering, target, n);
        assert forall|k: int| 0 <= k < prev.0.len() implies next.0[k] == #[trigger] prev.0[k] by {
            if next.0 != prev.0 {
                assert(next.0 == prev.0.push(next.0.last()));
            }
        }
    }
}

fn opt_equals(a: &Option<String>, b: &Option<String>) -> (r: bool)
    ensures
        r == (opt_chars(*a) == opt_chars(*b)),
{
    match (a, b) {
        (Some(x), Some(y)) => str_equals(x.as_str(), y.as_str()),
        (None, None) => true,
        _ => false,
    }
}

fn lowers_exec(l: &LoweringTraceEvent, event: &CoreTraceEvent, target: &String) -> (r: bool)
    ensures
        r == lowers(*l, *event, target@),
{
    let kind = trace_kind_name(event.kind);
    str_equals(l.core_event_id.as_str(), event.id.as_str()) && str_equals(l.function.as_str(), target.as_str())
        && str_equals(l.kind.as_str(), kind.as_str()) && opt_equals(&l.binding, &event.binding) && l.order == event.order
}

fn distance_exec(l: &LoweringTraceEvent, event: &CoreTraceEvent) -> (d: u32)
    ensures
        d as int == start_distance(*l, *event),
{
    let a = l.kobo_span.start;
    let b = event.source_span.start as u32;
    if a >= b { a - b } else { b - a }
}

proof fn lemma_nearest_in_range(lowering: Seq<LoweringTraceEvent>, event: CoreTraceEvent, target: Seq<char>, used: Set<int>, n: int)
    requires
        0 <= n <= lowering.len(),
    ensures
        nearest_lowering(lowering, event, target, used, n) matches Some(j) ==> 0 <= j < n && !used.contains(j)
            && lowers(lowering[j], event, target),
    decreases n,
{
    if n > 0 {
        lemma_nearest_in_range(lowering, event, target, used, n - 1);
    }
}

fn nearest_lowering_exec(lowering: &Vec<LoweringTraceEvent>, event: &CoreTraceEvent, target: &String, used: &Vec<bool>) -> (r: Option<usize>)
    requires
        used@.len() == lowering@.len(),
    ensures
        r == match nearest_lowering(lowering@, *event, target@, Set::new(|j: int| 0 <= j < used@.len() && used@[j]), lowering@.len() as int) {
            Some(j) => Some(j as usize),
            None => None::<usize>,
        },
{
    let ghost used_set = Set::new(|j: int| 0 <= j < used@.len() && used@[j]);
    let mut best: Option<usize> = None;
    let mut best_distance: u32 = 0;
    let mut i: usize = 0;
    while i < lowering.len()
        invariant
            i <= lowering@.len(),
            used@.len() == lowering@.len(),
            used_set == Set::new(|j: int| 0 <= j < used@.len() && used@[j]),
            best == match nearest_lowering(lowering@, *event, target@, used_set, i as int) {
                Some(j) => Some(j as usize),
                None => None::<usize>,
            },
            best matches Some(b) ==> b < i && best_distance as int == start_distance(lowering@[b as int], *event),
        decreases lowering@.len() - i,
    {
        proof {
            lemma_nearest_in_range(lowering@, *event, target@, used_set, i as int);
        }
        if !used[i] && lowers_exec(&lowering[i], event, target) {
            let d = distance_exec(&lowering[i], event);
            let better = match best {
                None => true,
                Some(_) => d < best_distance,
            };
            if better {
                best = Some(i);
                best_distance = d;
            }
        }
        i = i + 1;
    }
    best
}

fn anchor_kobo_span_exec(source_path: &str, source: &str, span: &KoboSpan) -> (s: SourceSpan)
    requires
        utf8_len(source@) < usize::MAX,
        span.start < u32::MAX,
        byte_boundary(source@, if (span.start as int) < utf8_len(source@) { span.start as int } else { utf8_len(source@) as int }),
    ensures
        anchor_kobo_span(s, source_path@, source@, *span),
{
    let start = span.start as usize;
    let end = if span.end > span.start + 1 { span.end as usize } else { (span.start + 1) as usize };
    let chars = crate::strings::chars_of(source);
    proof {
        assert(chars@.subrange(0, chars@.len() as int) =~= chars@);
    }
    let total = crate::text::utf8_len_range(chars.as_slice(), 0, chars.len());
    let bounded = if start < total { start } else { total };
    proof {
        assert(crate::source_spans::clamp_offset(source@, bounded as int) == bounded as int);
    }
    let line = one_based_line_for_offset(source, bounded);
    let snippet = line_snippet(source, bounded);
    SourceSpan { path: owned(source_path), line: line, start: start, end: end, mapped: true, snippet: snippet }
}

/// The generated-Rust trace of a program: where there is a source map, each
/// Core trace event, in order, matched to the nearest unused event of the
/// map's lowering trace that stands for it (the first of equally near ones);
/// events without one are left out. Without a source map there is none.
pub fn generated_trace_evidence(source_path: &str, source: &str, program: &ScenarioProgram, core_trace: &Vec<CoreTraceEvent>, source_map: Option<&KoboSourceMap>) -> (r: Vec<GeneratedTraceEvent>)
    requires
        utf8_len(source@) < usize::MAX,
        source_map matches Some(m) ==> matched_starts_in(core_trace@, m.lowering_trace@, program.target@, source@),
    ensures
        match source_map {
            None => r@.len() == 0,
            Some(m) => {
                let matched = matched_upto(core_trace@, m.lowering_trace@, program.target@, core_trace@.len() as int).0;
                &&& r@.len() == matched.len()
                &&& forall|k: int| 0 <= k < r@.len() ==> preserves(#[trigger] r@[k], core_trace@[matched[k].0])
                &&& forall|k: int| 0 <= k < r@.len() ==> generated_event_is(#[trigger] r@[k], core_trace@[matched[k].0],
                    m.lowering_trace@[matched[k].1], m.file@, source_path@, source@)
            },
        },
{
    let mut out: Vec<GeneratedTraceEvent> = Vec::new();
    let m = match source_map {
        Some(m) => m,
        None => return out,
    };
    let ghost lowering = m.lowering_trace@;
    let ghost target = program.target@;
    let mut used: Vec<bool> = Vec::new();
    let mut j: usize = 0;
    while j < m.lowering_trace.len()
        invariant
            j <= lowering.len(),
            lowering == m.lowering_trace@,
            used@ == Seq::new(j as nat, |k: int| false),
        decreases lowering.len() - j,
    {
        used.push(false);
        proof {
            assert(used@ =~= Seq::new((j + 1) as nat, |k: int| false));
        }
        j = j + 1;
    }
    proof {
        assert(Set::new(|k: int| 0 <= k < used@.len() && used@[k]) =~= Set::<int>::empty());
    }
    let mut i: usize = 0;
    while i < core_trace.len()
        invariant
            i <= core_trace@.len(),
            lowering == m.lowering_trace@,
            target == program.target@,
            utf8_len(source@) < usize::MAX,
            matched_starts_in(core_trace@, lowering, target, source@),
            used@.len() == lowering.len(),
            Set::new(|k: int| 0 <= k < used@.len() && used@[k]) == matched_upto(core_trace@, lowering, target, i as int).1,
            out@.len() == matched_upto(core_trace@, lowering, target, i as int).0.len(),
            forall|k: int| 0 <= k < matched_upto(core_trace@, lowering, target, i as int).0.len() ==> {
                let p = #[trigger] matched_upto(core_trace@, lowering, target, i as int).0[k];
                0 <= p.0 < i && 0 <= p.1 < lowering.len()
            },
            forall|k: int| 0 <= k < out@.len() ==> generated_event_is(#[trigger] out@[k],
                core_trace@[matched_upto(core_trace@, lowering, target, i as int).0[k].0],
                lowering[matched_upto(core_trace@, lowering, target, i as int).0[k].1], m.file@, source_path@, source@),
        decreases core_trace@.len() - i,
    {
        let event = &core_trace[i];
        let ghost prev = matched_upto(core_trace@, lowering, target, i as int);
        let found = nearest_lowering_exec(&m.lowering_trace, event, &program.target, &used);
        proof {
            lemma_nearest_in_range(lowering, *event, target, prev.1, lowering.len() as int);
            assert(Set::new(|k: int| 0 <= k < used@.len() && used@[k]) == prev.1);
            assert(Set::new(|j: int| 0 <= j < used@.len() && used@[j]) =~= prev.1);
            assert(found == match nearest_lowering(lowering, *event, target, prev.1, lowering.len() as int) {
                Some(j) => Some(j as usize),
                None => None::<usize>,
            });
        }
        match found {
            Some(j) => {
                let l = &m.lowering_trace[j];
                proof {
                    assert(*event == core_trace@[i as int]);
                    let nr = nearest_lowering(lowering, *event, target, prev.1, lowering.len() as int);
                    let jj = nr->0;
                    assert(lowering.len() == m.lowering_trace.len());
                    assert(jj == j as int);
                    assert(nr == Some(j as int));
                    let full = matched_upto(core_trace@, lowering, target, core_trace@.len() as int).0;
                    let next = matched_upto(core_trace@, lowering, target, i + 1);
                    assert(next.0 == prev.0.push((i as int, j as int)));
                    lemma_matched_prefix(core_trace@, lowering, target, i + 1, core_trace@.len() as int);
                    let k = prev.0.len() as int;
                    assert(next.0[k] == (i as int, j as int));
                    assert(starts_in(lowering[full[k].1], source@));
                }
                used.set(j, true);
                let generated_span = SourceSpan {
                    path: owned(m.file.as_str()),
                    line: l.rs_span.line,
                    start: l.rs_span.column_start,
                    end: l.rs_span.column_end,
                    mapped: true,
                    snippet: String::new(),
                };
                let kobo_span = anchor_kobo_span_exec(source_path, source, &l.kobo_span);
                let mut id = owned("generated-");
                id.append(event.id.as_str());
                let template_id = match &l.template_id {
                    Some(t) => Some(t.clone()),
                    None => clone_opt_string(&event.template_id),
                };
                let template_version = match &l.template_version {
                    Some(t) => Some(t.clone()),
                    None => clone_opt_string(&event.template_version),
                };
                let g = GeneratedTraceEvent {
                    id: id,
                    core_event_id: l.core_event_id.clone(),
                    kind: event.kind,
                    binding: clone_opt_string(&event.binding),
                    order: l.order,
                    source_map_anchor: SourceMapAnchorEvidence {
                        id: l.source_map_entry_id.clone(),
                        status: SourceMapAnchorStatus::Mapped,
                        generated_span: generated_span,
                        kobo_span: kobo_span,
                    },
                    lowering_phase: l.lowering_phase.clone(),
                    template_id: template_id,
                    template_version: template_version,
                };
                let ghost before_out = out@;
                out.push(g);
                proof {
                    let next = matched_upto(core_trace@, lowering, target, i + 1);
                    assert(nearest_lowering(lowering, core_trace@[i as int], target, prev.1, lowering.len() as int) == Some(j as int));
                    assert(next.0 == prev.0.push((i as int, j as int)));
                    assert(next.1 == prev.1.insert(j as int));
                    assert(Set::new(|k: int| 0 <= k < used@.len() && used@[k]) =~= prev.1.insert(j as int));
                    assert forall|k: int| 0 <= k < out@.len() implies generated_event_is(#[trigger] out@[k],
                        core_trace@[next.0[k].0], lowering[next.0[k].1], m.file@, source_path@, source@) by {
                        if k < before_out.len() {
                            assert(out@[k] == before_out[k]);
                            assert(next.0[k] == prev.0[k]);
                        }
                    }
                    assert forall|k: int| 0 <= k < next.0.len() implies {
                        let p = #[trigger] next.0[k];
                        0 <= p.0 < i + 1 && 0 <= p.1 < lowering.len()
                    } by {
                        if k < prev.0.len() {
                            assert(next.0[k] == prev.0[k]);
                        }
                    }
                }
            },
            None => {
                proof {
                    assert(*event == core_trace@[i as int]);
                    assert(nearest_lowering(lowering, core_trace@[i as int], target, prev.1, lowering.len() as int) is None);
                    let next = matched_upto(core_trace@, lowering, target, i + 1);
                    assert(next == prev);
                }
            },
        }
        i = i + 1;
    }
    proof {
        lemma_matched_lowers(core_trace@, lowering, target, core_trace@.len() as int);
        let matched = matched_upto(core_trace@, lowering, target, core_trace@.len() as int).0;
        assert forall|k: int| 0 <= k < out@.len() implies preserves(#[trigger] out@[k], core_trace@[matched[k].0]) by {
            assert(generated_event_is(out@[k], core_trace@[matched[k].0], lowering[matched[k].1], m.file@, source_path@, source@));
            assert(lowers(lowering[matched[k].1], core_trace@[matched[k].0], target));
        }
    }
    out
}

/// Whether the generated Rust was validated against the Core trace.
#[derive(Clone, Copy, Debug, PartialEq, Eq, Structural)]
pub enum TranslationValidationStatus {
    /// There is nothing to validate against: no Core trace, or no source map.
    CoreOnly,
    /// Every Core trace event is preserved in the generated trace.
    Validated,
    /// Some Core trace event is not.
    Failed,
}

/// Generated event `g` preserves Core event `e`: same Core event id, kind,
/// binding and order, at a mapped source-map anchor.
pub open spec fn preserves(g: GeneratedTraceEvent, e: CoreTraceEvent) -> bool {
    &&& g.core_event_id@ == e.id@
    &&& g.kind == e.kind
    &&& opt_chars(g.binding) == opt_chars(e.binding)
    &&& g.order == e.order
    &&& g.source_map_anchor.status == SourceMapAnchorStatus::Mapped
}

/// Some event of `generated` preserves `e`.
pub open spec fn preserved(generated: Seq<GeneratedTraceEvent>, e: CoreTraceEvent) -> bool {
    exists|j: int| 0 <= j < generated.len() && preserves(#[trigger] generated[j], e)
}

/// The translation validation status: Core-only where there is no Core trace
/// or no source map; validated where every Core trace event is preserved by
/// some generated event; failed otherwise.
pub open spec fn validation_status(core: Seq<CoreTraceEvent>, generated: Seq<GeneratedTraceEvent>, has_source_map: bool) -> TranslationValidationStatus {
    if core.len() == 0 || !has_source_map {
        TranslationValidationStatus::CoreOnly
    } else if forall|i: int| 0 <= i < core.len() ==> preserved(generated, #[trigger] core[i]) {
        TranslationValidationStatus::Validated
    } else {
        TranslationValidationStatus::Failed
    }
}

fn preserves_exec(g: &GeneratedTraceEvent, e: &CoreTraceEvent) -> (r: bool)
    ensures
        r == preserves(*g, *e),
{
    str_equals(g.core_event_id.as_str(), e.id.as_str()) && g.kind == e.kind && opt_equals(&g.binding, &e.binding)
        && g.order == e.order && g.source_map_anchor.status == SourceMapAnchorStatus::Mapped
}

/// Whether the generated Rust preserves the Core trace: Core-only without a
/// Core trace or a source map, validated where every Core trace event has a
/// generated event with its Core event id, kind, binding and order at a
/// mapped anchor, failed otherwise.
pub fn translation_validation_status(core_trace: &[CoreTraceEvent], generated_trace: &[GeneratedTraceEvent], has_source_map: bool) -> (r: TranslationValidationStatus)
    ensures
        r == validation_status(core_trace@, generated_trace@, has_source_map),
{
    if core_trace.len() == 0 || !has_source_map {
        return TranslationValidationStatus::CoreOnly;
    }
    let mut i: usize = 0;
    while i < core_trace.len()
        invariant
            i <= core_trace@.len(),
            core_trace@.len() > 0,
            has_source_map,
            forall|k: int| 0 <= k < i ==> preserved(generated_trace@, #[trigger] core_trace@[k]),
        decreases core_trace@.len() - i,
    {
        let e = &core_trace[i];
        let mut found = false;
        let mut j: usize = 0;
        while j < generated_trace.len()
            invariant
                j <= generated_trace@.len(),
                i < core_trace@.len(),
                *e == core_trace@[i as int],
                found ==> preserved(generated_trace@, *e),
                !found ==> forall|q: int| 0 <= q < j ==> !preserves(#[trigger] generated_trace@[q], *e),
            decreases generated_trace@.len() - j,
        {
            if preserves_exec(&generated_trace[j], e) {
                found = true;
            }
            j = j + 1;
        }
        if !found {
            proof {
                assert forall|q: int| 0 <= q < generated_trace@.len() implies !preserves(#[trigger] generated_trace@[q], core_trace@[i as int]) by {}
                assert(!preserved(generated_trace@, core_trace@[i as int]));
                assert(core_trace@.len() > 0 && has_source_map);
                assert(!(forall|k: int| 0 <= k < core_trace@.len() ==> preserved(generated_trace@, #[trigger] core_trace@[k])));
            }
            return TranslationValidationStatus::Failed;
        }
        i = i + 1;
    }
    TranslationValidationStatus::Validated
}

proof fn lemma_full_match(core: Seq<CoreTraceEvent>, lowering: Seq<LoweringTraceEvent>, target: Seq<char>, n: int)
    requires
        0 <= n <= core.len(),
    ensures
        matched_upto(core, lowering, target, n).0.len() <= n,
        matched_upto(core, lowering, target, n).0.len() == n ==> forall|k: int| 0 <= k < n
            ==> (#[trigger] matched_upto(core, lowering, target, n).0[k]).0 == k,
    decreases n,
{
    if n > 0 {
        lemma_full_match(core, lowering, target, n - 1);
        let prev = matched_upto(core, lowering, target, n - 1).0;
        let next = matched_upto(core, lowering, target, n).0;
        if next.len() == n {
            assert(next.len() == prev.len() + 1);
            assert forall|k: int| 0 <= k < n implies (#[trigger] next[k]).0 == k by {
                if k < n - 1 {
                    assert(next[k] == prev[k]);
                }
            }
        }
    }
}

/// A generated trace that matches every Core trace event to a lowering
/// event of the source map validates the translation.
pub proof fn lemma_full_trace_validates(core: Seq<CoreTraceEvent>, lowering: Seq<LoweringTraceEvent>, target: Seq<char>, generated: Seq<GeneratedTraceEvent>)
    requires
        core.len() > 0,
        generated.len() == matched_upto(core, lowering, target, core.len() as int).0.len(),
        generated.len() == core.len(),
        forall|k: int| 0 <= k < generated.len() ==> preserves(#[trigger] generated[k],
            core[matched_upto(core, lowering, target, core.len() as int).0[k].0]),
    ensures
        validation_status(core, generated, true) == TranslationValidationStatus::Validated,
{
    lemma_full_match(core, lowering, target, core.len() as int);
    let m = matched_upto(core, lowering, target, core.len() as int).0;
    assert forall|i: int| 0 <= i < core.len() implies preserved(generated, #[trigger] core[i]) by {
        assert(m[i].0 == i);
        assert(preserves(generated[i], core[m[i].0]));
    }
}

} // verus!
