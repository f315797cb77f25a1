//! The Kobo-to-Rust source map: generated spans, the entries of lowered
//! binding sites, lookups between generated and Kobo spans, proof source-map
//! entry ids and the details recorded for proof anchors.
use vstd::prelude::*;
use crate::strings::{chars_of, decimal_text, push_decimal, string_from_chars};
use crate::text::{char_rindex, copy_range, first_match, lemma_first_match, matches_at, str_equals};
use crate::debt::OwnershipTier;
use crate::scenario::KoboSpan;

verus! {

/// A span of generated Rust: a line and a column range.
#[derive(Clone, Copy, Debug, PartialEq, Eq, Structural)]
pub struct RsSpan {
    pub line: usize,
    pub column_start: usize,
    pub column_end: usize,
}

/// Whether two generated spans share a column (their ranges, ends included,
/// meet).
pub fn spans_overlap(left: &RsSpan, right: &RsSpan) -> (overlap: bool)
    ensures
        overlap == (left.column_start <= right.column_end && right.column_start <= left.column_end),
{
    left.column_start <= right.column_end && right.column_start <= left.column_end
}

/// Overlap of generated spans is symmetric.
pub proof fn lemma_spans_overlap_symmetric(left: RsSpan, right: RsSpan)
    ensures
        (left.column_start <= right.column_end && right.column_start <= left.column_end)
            == (right.column_start <= left.column_end && left.column_start <= right.column_end),
{
}

/// The id of the proof source-map entry of a function's event at `order`.
pub fn proof_source_map_entry_id(function: &str, order: usize) -> (id: String)
    ensures
        id@ == "proof-map-"@ + function@ + "-"@ + decimal_text(order as nat),
{
    let mut id = crate::config::owned("proof-map-");
    id.append(function);
    id.append("-");
    push_decimal(&mut id, order as u64);
    id
}

/// The detail a discharge anchor records for its action: `escape` and
/// `suppressed` actions by their kind alone, others as written.
pub open spec fn discharge_detail(action: Seq<char>) -> Seq<char> {
    if action.len() >= "escape:"@.len() && action.take("escape:"@.len() as int) == "escape:"@ {
        "escape"@
    } else if action.len() >= "suppressed:"@.len() && action.take("suppressed:"@.len() as int) == "suppressed:"@ {
        "suppressed"@
    } else {
        action
    }
}

fn starts_with_text(s: &str, prefix: &str) -> (r: bool)
    ensures
        r == (s@.len() >= prefix@.len() && s@.take(prefix@.len() as int) == prefix@),
{
    let cs = chars_of(s);
    let ps = chars_of(prefix);
    let r = crate::text::starts_with_at_exec(cs.as_slice(), ps.as_slice(), 0, cs.len());
    proof {
        assert(cs@.subrange(0, ps@.len() as int) =~= cs@.take(ps@.len() as int)) by {
            if ps@.len() <= cs@.len() {
            }
        }
    }
    r
}

/// The detail a discharge anchor records for its action.
pub fn discharge_anchor_detail(action: &str) -> (detail: String)
    ensures
        detail@ == discharge_detail(action@),
{
    if starts_with_text(action, "escape:") {
        return crate::config::owned("escape");
    }
    if starts_with_text(action, "suppressed:") {
        return crate::config::owned("suppressed");
    }
    crate::config::owned(action)
}

/// The name a terminal method call is recorded under.
pub fn terminal_action_name(method: &str) -> (name: String)
    ensures
        name@ == if method@ == "detach_with_policy"@ { "detach-with-policy"@ } else { method@ },
{
    if str_equals(method, "detach_with_policy") {
        crate::config::owned("detach-with-policy")
    } else {
        crate::config::owned(method)
    }
}

/// The start of the last `::`-separated segment of `s[..hi]`: just after the
/// last separator that `str::rsplit` finds, scanning from the end.
pub open spec fn last_segment_start(s: Seq<char>, hi: int) -> int
    decreases hi,
{
    if hi < 2 {
        0
    } else if s[hi - 2] == ':' && s[hi - 1] == ':' {
        hi
    } else {
        last_segment_start(s, hi - 1)
    }
}

proof fn lemma_last_segment_start(s: Seq<char>, hi: int)
    requires
        0 <= hi <= s.len(),
    ensures
        0 <= last_segment_start(s, hi) <= hi,
    decreases hi,
{
    if hi >= 2 && !(s[hi - 2] == ':' && s[hi - 1] == ':') {
        lemma_last_segment_start(s, hi - 1);
    }
}

/// The last `::` segment of a path, unless it is empty.
pub open spec fn last_segment(path: Seq<char>) -> Option<Seq<char>> {
    let start = last_segment_start(path, path.len() as int);
    if start < path.len() {
        Some(path.subrange(start, path.len() as int))
    } else {
        None
    }
}

/// The last `::` segment of a path, unless it is empty.
pub fn last_path_segment_text(path: &str) -> (segment: Option<String>)
    ensures
        match segment {
            Some(s) => last_segment(path@) == Some(s@),
            None => last_segment(path@) is None,
        },
{
    let cs = chars_of(path);
    let n = cs.len();
    let mut hi = n;
    while hi >= 2 && !(cs[hi - 2] == ':' && cs[hi - 1] == ':')
        invariant
            hi <= n,
            n == cs@.len(),
            last_segment_start(cs@, hi as int) == last_segment_start(cs@, n as int),
        decreases hi,
    {
        hi = hi - 1;
    }
    let start = if hi < 2 { 0 } else { hi };
    proof {
        lemma_last_segment_start(cs@, n as int);
    }
    if start < n {
        let piece = copy_range(cs.as_slice(), start, n);
        Some(string_from_chars(piece.as_slice()))
    } else {
        None
    }
}

/// One mapping of a generated span to the Kobo span it comes from.
#[derive(Debug)]
pub struct SourceMapEntry {
    pub id: String,
    pub core_event_id: Option<String>,
    pub binding_name: String,
    pub rs_span: RsSpan,
    pub kobo_span: KoboSpan,
    pub ownership_tier: String,
    pub solver_outcome: Option<String>,
    pub decision_source: Option<String>,
    pub solver_node_id: Option<u64>,
}

/// A source-map entry with its strings as characters.
pub struct EntryView {
    pub id: Seq<char>,
    pub core_event_id: Option<Seq<char>>,
    pub binding_name: Seq<char>,
    pub rs_span: RsSpan,
    pub kobo_span: KoboSpan,
    pub ownership_tier: Seq<char>,
    pub solver_outcome: Option<Seq<char>>,
    pub decision_source: Option<Seq<char>>,
    pub solver_node_id: Option<u64>,
}

pub open spec fn opt_seq(value: Option<String>) -> Option<Seq<char>> {
    match value {
        Some(v) => Some(v@),
        None => None,
    }
}

impl View for SourceMapEntry {
    type V = EntryView;

    open spec fn view(&self) -> EntryView {
        EntryView {
            id: self.id@,
            core_event_id: opt_seq(self.core_event_id),
            binding_name: self.binding_name@,
            rs_span: self.rs_span,
            kobo_span: self.kobo_span,
            ownership_tier: self.ownership_tier@,
            solver_outcome: opt_seq(self.solver_outcome),
            decision_source: opt_seq(self.decision_source),
            solver_node_id: self.solver_node_id,
        }
    }
}

pub open spec fn entry_views(entries: Seq<SourceMapEntry>) -> Seq<EntryView> {
    entries.map_values(|e: SourceMapEntry| e@)
}

/// One proof event of the lowering trace: the scenario operation it comes
/// from, and the source-map entry where it was lowered to.
#[derive(Debug)]
pub struct LoweringTraceEvent {
    pub id: String,
    pub core_event_id: String,
    pub function: String,
    pub kind: String,
    pub binding: Option<String>,
    pub order: u64,
    pub source_map_entry_id: String,
    pub rs_span: RsSpan,
    pub kobo_span: KoboSpan,
    pub lowering_phase: String,
    pub template_id: Option<String>,
    pub template_version: Option<String>,
}

/// A lowering trace event with its strings as characters.
pub struct TraceEventView {
    pub id: Seq<char>,
    pub core_event_id: Seq<char>,
    pub function: Seq<char>,
    pub kind: Seq<char>,
    pub binding: Option<Seq<char>>,
    pub order: u64,
    pub source_map_entry_id: Seq<char>,
    pub rs_span: RsSpan,
    pub kobo_span: KoboSpan,
    pub lowering_phase: Seq<char>,
    pub template_id: Option<Seq<char>>,
    pub template_version: Option<Seq<char>>,
}

impl View for LoweringTraceEvent {
    type V = TraceEventView;

    open spec fn view(&self) -> TraceEventView {
        TraceEventView {
            id: self.id@,
            core_event_id: self.core_event_id@,
            function: self.function@,
            kind: self.kind@,
            binding: opt_seq(self.binding),
            order: self.order,
            source_map_entry_id: self.source_map_entry_id@,
            rs_span: self.rs_span,
            kobo_span: self.kobo_span,
            lowering_phase: self.lowering_phase@,
            template_id: opt_seq(self.template_id),
            template_version: opt_seq(self.template_version),
        }
    }
}

pub open spec fn trace_views(events: Seq<LoweringTraceEvent>) -> Seq<TraceEventView> {
    events.map_values(|e: LoweringTraceEvent| e@)
}

/// The solver budget a map's solver evidence records: the largest cluster it
/// solves, and its time budget in seconds, held as the IEEE 754 bits of the
/// 64-bit float.
#[derive(Debug)]
pub struct SolverBudgetJson {
    pub max_cluster_size: u64,
    pub budget_seconds_bits: u64,
}

/// What the ownership solver reported for the map's program.
#[derive(Debug)]
pub struct SolverEvidenceJson {
    pub outcome: String,
    pub graph_fingerprint: String,
    pub node_count: u64,
    pub edge_count: u64,
    pub budget: SolverBudgetJson,
}

/// The source map of a generated Rust file.
#[derive(Debug)]
pub struct KoboSourceMap {
    pub version: u32,
    pub file: String,
    pub sources: Vec<String>,
    pub x_kobo_mappings: Vec<SourceMapEntry>,
    pub solver_evidence: Option<SolverEvidenceJson>,
    pub lowering_trace: Vec<LoweringTraceEvent>,
}

/// Wraps the entries of a generated file in its source map (format version 3),
/// with no solver evidence and no lowering trace yet.
pub fn wrap_source_map(kobo_path: &str, rs_path: &str, entries: Vec<SourceMapEntry>) -> (map: KoboSourceMap)
    ensures
        map.version == 3,
        map.file@ == rs_path@,
        map.sources@.len() == 1,
        map.sources@[0]@ == kobo_path@,
        map.x_kobo_mappings@ == entries@,
        map.solver_evidence is None,
        map.lowering_trace@.len() == 0,
{
    KoboSourceMap {
        version: 3,
        file: crate::config::owned(rs_path),
        sources: vec![crate::config::owned(kobo_path)],
        x_kobo_mappings: entries,
        solver_evidence: None,
        lowering_trace: Vec::new(),
    }
}

/// Entry `e` lies on `span`'s line and overlaps it.
pub open spec fn overlaps_on_line(e: SourceMapEntry, span: RsSpan) -> bool {
    e.rs_span.line == span.line && e.rs_span.column_start <= span.column_end && span.column_start <= e.rs_span.column_end
}

/// The first of the first `n` entries that `span` selects: overlapping it on
/// its line where `overlapping`, else merely on its line.
pub open spec fn first_entry(entries: Seq<SourceMapEntry>, span: RsSpan, overlapping: bool, n: int) -> Option<int>
    decreases n,
{
    if n <= 0 {
        None
    } else {
        match first_entry(entries, span, overlapping, n - 1) {
            Some(i) => Some(i),
            None => if (if overlapping { overlaps_on_line(entries[n - 1], span) } else { entries[n - 1].rs_span.line == span.line }) {
                Some(n - 1)
            } else {
                None
            },
        }
    }
}

/// The first mapping on `span`'s line that overlaps it, else the first on its line.
pub open spec fn kobo_span_for(entries: Seq<SourceMapEntry>, span: RsSpan) -> Option<KoboSpan> {
    match first_entry(entries, span, true, entries.len() as int) {
        Some(i) => Some(entries[i].kobo_span),
        None => match first_entry(entries, span, false, entries.len() as int) {
            Some(i) => Some(entries[i].kobo_span),
            None => None,
        },
    }
}

proof fn lemma_first_entry_stays(entries: Seq<SourceMapEntry>, span: RsSpan, overlapping: bool, m: int, n: int)
    requires
        0 <= m <= n,
        first_entry(entries, span, overlapping, m) is Some,
    ensures
        first_entry(entries, span, overlapping, n) == first_entry(entries, span, overlapping, m),
    decreases n - m,
{
    if n > m {
        lemma_first_entry_stays(entries, span, overlapping, m, n - 1);
    }
}

/// Two Kobo spans overlap: they are in the same file and their half-open
/// byte ranges share a byte.
pub open spec fn kobo_spans_overlap(a: KoboSpan, b: KoboSpan) -> bool {
    a.file_id == b.file_id && a.start < b.end && b.start < a.end
}

/// The generated spans of the mappings whose Kobo span overlaps `span` or
/// equals it, in order.
pub open spec fn rs_spans_for(entries: Seq<SourceMapEntry>, span: KoboSpan) -> Seq<RsSpan>
    decreases entries.len(),
{
    if entries.len() == 0 {
        Seq::empty()
    } else {
        let prev = rs_spans_for(entries.drop_last(), span);
        let e = entries.last();
        if kobo_spans_overlap(e.kobo_span, span) || e.kobo_span == span {
            prev.push(e.rs_span)
        } else {
            prev
        }
    }
}

impl KoboSourceMap {
    /// The generated file the map is for.
    pub fn generated_file(&self) -> (file: &str)
        ensures
            file@ == self.file@,
    {
        self.file.as_str()
    }

    /// The Kobo source: the first source, else the generated file.
    pub fn kobo_path(&self) -> (path: &str)
        ensures
            path@ == if self.sources@.len() > 0 { self.sources@[0]@ } else { self.file@ },
    {
        if self.sources.len() > 0 {
            self.sources[0].as_str()
        } else {
            self.file.as_str()
        }
    }

    /// The generated spans of the mappings whose Kobo span overlaps
    /// `kobo_span` or equals it, in mapping order.
    pub fn lookup_rs_spans(&self, kobo_span: KoboSpan) -> (r: Vec<RsSpan>)
        ensures
            r@ == rs_spans_for(self.x_kobo_mappings@, kobo_span),
    {
        let ghost entries = self.x_kobo_mappings@;
        let mut r: Vec<RsSpan> = Vec::new();
        let mut i: usize = 0;
        proof {
            assert(rs_spans_for(entries.take(0), kobo_span) =~= Seq::<RsSpan>::empty());
        }
        while i < self.x_kobo_mappings.len()
            invariant
                i <= entries.len(),
                entries == self.x_kobo_mappings@,
                r@ == rs_spans_for(entries.take(i as int), kobo_span),
            decreases entries.len() - i,
        {
            let e = &self.x_kobo_mappings[i];
            let ks = e.kobo_span;
            let hit = (ks.file_id == kobo_span.file_id && ks.start < kobo_span.end && kobo_span.start < ks.end)
                || (ks.file_id == kobo_span.file_id && ks.start == kobo_span.start && ks.end == kobo_span.end);
            proof {
                assert(entries.take(i + 1).drop_last() =~= entries.take(i as int));
                assert(entries.take(i + 1).last() == *e);
            }
            if hit {
                r.push(e.rs_span);
            }
            i = i + 1;
        }
        proof {
            assert(entries.take(i as int) =~= entries);
        }
        r
    }

    /// The Kobo span of a generated span: that of the first mapping on its
    /// line that overlaps it, else that of the first mapping on its line.
    pub fn lookup_kobo_span(&self, rs_span: RsSpan) -> (r: Option<KoboSpan>)
        ensures
            r == kobo_span_for(self.x_kobo_mappings@, rs_span),
    {
        let ghost entries = self.x_kobo_mappings@;
        let mut i: usize = 0;
        while i < self.x_kobo_mappings.len()
            invariant
                i <= entries.len(),
                entries == self.x_kobo_mappings@,
                first_entry(entries, rs_span, true, i as int) is None,
            decreases entries.len() - i,
        {
            let entry = &self.x_kobo_mappings[i];
            if entry.rs_span.line == rs_span.line && spans_overlap(&entry.rs_span, &rs_span) {
                proof {
                    assert(first_entry(entries, rs_span, true, i + 1) == Some(i as int));
                    lemma_first_entry_stays(entries, rs_span, true, i + 1, entries.len() as int);
                }
                return Some(entry.kobo_span);
            }
            i = i + 1;
        }
        let mut j: usize = 0;
        while j < self.x_kobo_mappings.len()
            invariant
                j <= entries.len(),
                entries == self.x_kobo_mappings@,
                first_entry(entries, rs_span, true, entries.len() as int) is None,
                first_entry(entries, rs_span, false, j as int) is None,
            decreases entries.len() - j,
        {
            let entry = &self.x_kobo_mappings[j];
            if entry.rs_span.line == rs_span.line {
                proof {
                    assert(first_entry(entries, rs_span, false, j + 1) == Some(j as int));
                    lemma_first_entry_stays(entries, rs_span, false, j + 1, entries.len() as int);
                }
                return Some(entry.kobo_span);
            }
            j = j + 1;
        }
        None
    }
}

/// The label of an ownership tier in the source map.
pub open spec fn tier_label(tier: OwnershipTier) -> Seq<char> {
    match tier {
        OwnershipTier::PlainOwned => "plain"@,
        OwnershipTier::BoxOwned => "box"@,
        OwnershipTier::RcShared => "rc"@,
        OwnershipTier::ArcShared => "arc"@,
        OwnershipTier::RcMutShared => "rc_refcell"@,
        OwnershipTier::ArcMutShared => "arc_rwlock"@,
        OwnershipTier::Scoped => "scoped_handle"@,
        OwnershipTier::Undecided => "plain"@,
    }
}

pub fn ownership_tier_label(tier: OwnershipTier) -> (label: String)
    ensures
        label@ == tier_label(tier),
{
    match tier {
        OwnershipTier::PlainOwned => crate::config::owned("plain"),
        OwnershipTier::BoxOwned => crate::config::owned("box"),
        OwnershipTier::RcShared => crate::config::owned("rc"),
        OwnershipTier::ArcShared => crate::config::owned("arc"),
        OwnershipTier::RcMutShared => crate::config::owned("rc_refcell"),
        OwnershipTier::ArcMutShared => crate::config::owned("arc_rwlock"),
        OwnershipTier::Scoped => crate::config::owned("scoped_handle"),
        OwnershipTier::Undecided => crate::config::owned("plain"),
    }
}

/// A binding site that lowering recorded: its node, binding and tier, and
/// its Kobo span.
#[derive(Debug)]
pub struct LoweringSite {
    pub node: u64,
    pub binding_name: String,
    pub ownership_tier: OwnershipTier,
    pub kobo_span: KoboSpan,
}

/// Where a lowered node landed in the generated source.
#[derive(Clone, Copy, Debug, PartialEq, Eq, Structural)]
pub struct ResolvedAnchor {
    pub line: usize,
    pub column_start: usize,
    pub column_end: usize,
}

/// The anchor of node `node` among `anchors` (the first listed for it).
pub open spec fn anchor_of(anchors: Seq<(u64, ResolvedAnchor)>, node: u64) -> Option<ResolvedAnchor>
    decreases anchors.len(),
{
    if anchors.len() == 0 {
        None
    } else if anchors[0].0 == node {
        Some(anchors[0].1)
    } else {
        anchor_of(anchors.drop_first(), node)
    }
}

fn find_anchor(anchors: &[(u64, ResolvedAnchor)], node: u64) -> (r: Option<ResolvedAnchor>)
    ensures
        r == anchor_of(anchors@, node),
{
    let mut i: usize = 0;
    proof {
        assert(anchors@.skip(0) =~= anchors@);
    }
    while i < anchors.len()
        invariant
            i <= anchors@.len(),
            anchor_of(anchors@, node) == anchor_of(anchors@.skip(i as int), node),
        decreases anchors@.len() - i,
    {
        proof {
            assert(anchors@.skip(i as int)[0] == anchors@[i as int]);
            assert(anchors@.skip(i as int).drop_first() =~= anchors@.skip(i + 1));
        }
        if anchors[i].0 == node {
            return Some(anchors[i].1);
        }
        i = i + 1;
    }
    None
}

/// `e` is the source-map entry of `site` at `anchor`: id `map-<node>`, the
/// binding, the anchor's span, the site's Kobo span, the tier's label and
/// the node.
pub open spec fn entry_for_site(e: SourceMapEntry, site: LoweringSite, anchor: ResolvedAnchor) -> bool {
    &&& e.id@ == "map-"@ + decimal_text(site.node as nat)
    &&& e.core_event_id is None
    &&& e.binding_name@ == site.binding_name@
    &&& e.rs_span == RsSpan { line: anchor.line, column_start: anchor.column_start, column_end: anchor.column_end }
    &&& e.kobo_span == site.kobo_span
    &&& e.ownership_tier@ == tier_label(site.ownership_tier)
    &&& e.solver_outcome is None
    &&& e.decision_source is None
    &&& e.solver_node_id == Some(site.node)
}

/// The source-map entries of the lowering sites, one per site, in order.
/// Every site has an anchor.
pub fn build_source_map_entries(sites: &[LoweringSite], anchors: &[(u64, ResolvedAnchor)]) -> (entries: Vec<SourceMapEntry>)
    requires
        forall|i: int| 0 <= i < sites@.len() ==> anchor_of(anchors@, (#[trigger] sites@[i]).node) is Some,
    ensures
        entries@.len() == sites@.len(),
        forall|i: int| 0 <= i < sites@.len() ==> entry_for_site(#[trigger] entries@[i], sites@[i],
            anchor_of(anchors@, sites@[i].node)->0),
{
    let mut entries: Vec<SourceMapEntry> = Vec::new();
    let mut i: usize = 0;
    while i < sites.len()
        invariant
            i <= sites@.len(),
            entries@.len() == i,
            forall|k: int| 0 <= k < sites@.len() ==> anchor_of(anchors@, (#[trigger] sites@[k]).node) is Some,
            forall|k: int| 0 <= k < i ==> entry_for_site(#[trigger] entries@[k], sites@[k],
                anchor_of(anchors@, sites@[k].node)->0),
        decreases sites@.len() - i,
    {
        let site = &sites[i];
        let anchor = match find_anchor(anchors, site.node) {
            Some(a) => a,
            None => {
                proof {
                    assert(anchor_of(anchors@, sites@[i as int].node) is Some);
                }
                return entries;
            },
        };
        let mut id = crate::config::owned("map-");
        push_decimal(&mut id, site.node);
        let ghost before = entries@;
        entries.push(SourceMapEntry {
            id: id,
            core_event_id: None,
            binding_name: site.binding_name.clone(),
            rs_span: RsSpan { line: anchor.line, column_start: anchor.column_start, column_end: anchor.column_end },
            kobo_span: site.kobo_span,
            ownership_tier: ownership_tier_label(site.ownership_tier),
            solver_outcome: None,
            decision_source: None,
            solver_node_id: Some(site.node),
        });
        proof {
            assert forall|k: int| 0 <= k < i + 1 implies entry_for_site(#[trigger] entries@[k], sites@[k],
                anchor_of(anchors@, sites@[k].node)->0) by {
                if k < i {
                    assert(entries@[k] == before[k]);
                }
            }
        }
        i = i + 1;
    }
    entries
}

} // verus!
