//! Control-flow facts of Kobo Core: the edge strings that Core terminators
//! carry, the CFG nodes and edges built from them, the loop back-edge and
//! exit facts, and the blocks of each loop's region.
use vstd::prelude::*;
use crate::numbers::{parse_unsigned, parse_usize};
use crate::scenario::{KoboSpan, ScenarioOpKind, ScenarioOperation, ScenarioProgram};
use crate::source_spans::{SourceSpan, byte_boundary, clamp_offset, source_span_from_kobo,
    chars_before_byte, line_of_offset, snippet_at};
use crate::strings::{chars_of, decimal_text, push_decimal, string_from_chars};
use crate::text::{char_index, char_rindex, copy_range, find_char, lemma_char_index, opt_index,
    rfind_char, starts_with_at, starts_with_at_exec, str_equals};

verus! {

/// The kind of a loop edge named in a Core edge string.
#[derive(Clone, Copy, Debug, PartialEq, Eq, Structural)]
pub enum ParsedLoopEdgeKind {
    BackEdge,
    Continue,
    Break,
    Condition,
}

/// The name of a loop edge kind, as CFG edges record it.
pub open spec fn loop_edge_kind_name(kind: ParsedLoopEdgeKind) -> Seq<char> {
    match kind {
        ParsedLoopEdgeKind::BackEdge => "back_edge"@,
        ParsedLoopEdgeKind::Continue => "continue"@,
        ParsedLoopEdgeKind::Break => "break"@,
        ParsedLoopEdgeKind::Condition => "condition"@,
    }
}

impl ParsedLoopEdgeKind {
    /// The kind's name.
    pub fn as_str(self) -> (name: &'static str)
        ensures
            name@ == loop_edge_kind_name(self),
    {
        match self {
            ParsedLoopEdgeKind::BackEdge => "back_edge",
            ParsedLoopEdgeKind::Continue => "continue",
            ParsedLoopEdgeKind::Break => "break",
            ParsedLoopEdgeKind::Condition => "condition",
        }
    }
}

/// A Core edge string, taken apart.
#[derive(Debug)]
pub struct ParsedCoreEdge {
    pub target: String,
    pub loop_id: Option<String>,
    pub loop_edge_kind: Option<ParsedLoopEdgeKind>,
    pub loop_entry_block: Option<String>,
}

/// A parsed edge with its strings as character sequences.
pub struct ParsedEdgeView {
    pub target: Seq<char>,
    pub loop_id: Option<Seq<char>>,
    pub loop_edge_kind: Option<ParsedLoopEdgeKind>,
    pub loop_entry_block: Option<Seq<char>>,
}

pub open spec fn opt_chars(value: Option<String>) -> Option<Seq<char>> {
    match value {
        Some(text) => Some(text@),
        None => None,
    }
}

impl View for ParsedCoreEdge {
    type V = ParsedEdgeView;

    open spec fn view(&self) -> ParsedEdgeView {
        ParsedEdgeView {
            target: self.target@,
            loop_id: opt_chars(self.loop_id),
            loop_edge_kind: self.loop_edge_kind,
            loop_entry_block: opt_chars(self.loop_entry_block),
        }
    }
}

/// An edge to `target` that belongs to no loop.
pub open spec fn plain_edge(target: Seq<char>) -> ParsedEdgeView {
    ParsedEdgeView { target: target, loop_id: None, loop_edge_kind: None, loop_entry_block: None }
}

/// `s` starts with `prefix`.
pub open spec fn has_prefix(s: Seq<char>, prefix: Seq<char>) -> bool {
    prefix.len() <= s.len() && s.take(prefix.len() as int) == prefix
}

/// `loop_back:` / `loop_continue:` payloads: `<loop id>:<target>`, split at the
/// last colon; the target is also the loop's entry block.
pub open spec fn parsed_target_edge(payload: Seq<char>, kind: ParsedLoopEdgeKind, fallback: Seq<char>) -> ParsedEdgeView {
    match char_rindex(payload, ':', 0, payload.len() as int) {
        Some(i) => ParsedEdgeView {
            target: payload.skip(i + 1),
            loop_id: Some(payload.take(i)),
            loop_edge_kind: Some(kind),
            loop_entry_block: Some(payload.skip(i + 1)),
        },
        None => plain_edge(fallback),
    }
}

/// The loop exit kinds an edge string may name.
pub open spec fn exit_kind_named(kind: Seq<char>) -> Option<ParsedLoopEdgeKind> {
    if kind == "break"@ {
        Some(ParsedLoopEdgeKind::Break)
    } else if kind == "condition"@ {
        Some(ParsedLoopEdgeKind::Condition)
    } else {
        None
    }
}

/// The older `loop_exit:` payload `<kind>:<entry>[:<target>]`: the target
/// defaults to `<kind>_exit` and keeps any further colons; without an entry
/// block there is none.
pub open spec fn legacy_exit_edge(payload: Seq<char>) -> Option<ParsedEdgeView> {
    let n = payload.len() as int;
    let c1 = char_index(payload, ':', 0, n);
    let c2 = char_index(payload, ':', c1 + 1, n);
    if c1 >= n {
        None
    } else if c2 >= n {
        Some(ParsedEdgeView {
            target: payload.take(c1) + "_exit"@,
            loop_id: None,
            loop_edge_kind: exit_kind_named(payload.take(c1)),
            loop_entry_block: Some(payload.skip(c1 + 1)),
        })
    } else {
        Some(ParsedEdgeView {
            target: payload.skip(c2 + 1),
            loop_id: None,
            loop_edge_kind: exit_kind_named(payload.take(c1)),
            loop_entry_block: Some(payload.subrange(c1 + 1, c2)),
        })
    }
}

/// `loop_exit:` payloads: `<kind>:<loop id>:<entry>:<target>` (the target
/// keeps any further colons); or the older form of `legacy_exit_edge`;
/// anything else is a plain edge to the whole string.
pub open spec fn parsed_exit_edge(payload: Seq<char>, fallback: Seq<char>) -> ParsedEdgeView {
    let n = payload.len() as int;
    let c1 = char_index(payload, ':', 0, n);
    let c2 = char_index(payload, ':', c1 + 1, n);
    let c3 = char_index(payload, ':', c2 + 1, n);
    if c1 < n && c2 < n && c3 < n {
        ParsedEdgeView {
            target: payload.skip(c3 + 1),
            loop_id: Some(payload.subrange(c1 + 1, c2)),
            loop_edge_kind: exit_kind_named(payload.take(c1)),
            loop_entry_block: Some(payload.subrange(c2 + 1, c3)),
        }
    } else {
        match legacy_exit_edge(payload) {
            Some(edge) => edge,
            None => plain_edge(fallback),
        }
    }
}

/// What a Core edge string says: `goto:<target>`, `loop_back:...`,
/// `loop_continue:...`, `loop_exit:...`, or a bare target.
pub open spec fn parsed_core_edge(edge: Seq<char>) -> ParsedEdgeView {
    if has_prefix(edge, "goto:"@) {
        plain_edge(edge.skip("goto:"@.len() as int))
    } else if has_prefix(edge, "loop_back:"@) {
        parsed_target_edge(edge.skip("loop_back:"@.len() as int), ParsedLoopEdgeKind::BackEdge, edge)
    } else if has_prefix(edge, "loop_continue:"@) {
        parsed_target_edge(edge.skip("loop_continue:"@.len() as int), ParsedLoopEdgeKind::Continue, edge)
    } else if has_prefix(edge, "loop_exit:"@) {
        parsed_exit_edge(edge.skip("loop_exit:"@.len() as int), edge)
    } else {
        plain_edge(edge)
    }
}

/// The characters `s[lo..hi]` as a string.
fn string_of_range(s: &[char], lo: usize, hi: usize) -> (r: String)
    requires
        lo <= hi <= s@.len(),
    ensures
        r@ == s@.subrange(lo as int, hi as int),
{
    let chars = copy_range(s, lo, hi);
    string_from_chars(chars.as_slice())
}

/// Whether `s` starts with `prefix`.
pub(crate) fn starts_with_chars(s: &[char], prefix: &str) -> (r: bool)
    ensures
        r == has_prefix(s@, prefix@),
{
    let p = chars_of(prefix);
    let r = starts_with_at_exec(s, p.as_slice(), 0, s.len());
    proof {
        if r {
            assert(s@.subrange(0, p@.len() as int) =~= s@.take(p@.len() as int));
        } else if has_prefix(s@, prefix@) {
            assert(s@.subrange(0, p@.len() as int) =~= s@.take(p@.len() as int));
        }
    }
    r
}

impl ParsedCoreEdge {
    /// An edge to `target` that belongs to no loop.
    pub fn plain(target: &str) -> (edge: ParsedCoreEdge)
        ensures
            edge@ == plain_edge(target@),
    {
        ParsedCoreEdge {
            target: crate::config::owned(target),
            loop_id: None,
            loop_edge_kind: None,
            loop_entry_block: None,
        }
    }
}

fn plain_of_chars(s: &[char], lo: usize, hi: usize) -> (edge: ParsedCoreEdge)
    requires
        lo <= hi <= s@.len(),
    ensures
        edge@ == plain_edge(s@.subrange(lo as int, hi as int)),
{
    ParsedCoreEdge {
        target: string_of_range(s, lo, hi),
        loop_id: None,
        loop_edge_kind: None,
        loop_entry_block: None,
    }
}

/// The exit kind a loop exit edge names.
pub fn parsed_exit_kind(kind: &str) -> (r: Option<ParsedLoopEdgeKind>)
    ensures
        r == exit_kind_named(kind@),
{
    if str_equals(kind, "break") {
        Some(ParsedLoopEdgeKind::Break)
    } else if str_equals(kind, "condition") {
        Some(ParsedLoopEdgeKind::Condition)
    } else {
        None
    }
}

/// Takes apart a `loop_back:` or `loop_continue:` payload (`s[lo..]`), or
/// gives a plain edge to the whole string `s`.
pub fn parse_loop_target_edge(s: &[char], lo: usize, kind: ParsedLoopEdgeKind) -> (edge: ParsedCoreEdge)
    requires
        lo <= s@.len(),
    ensures
        edge@ == parsed_target_edge(s@.skip(lo as int), kind, s@),
{
    let n = s.len();
    let ghost payload = s@.skip(lo as int);
    match rfind_char(s, ':', lo, n) {
        Some(i) => {
            proof {
                crate::text::lemma_char_rindex(s@, ':', lo as int, n as int);
                lemma_rindex_shift(s@, lo as int, n as int);
                assert(payload.skip(i - lo + 1) =~= s@.subrange(i + 1, n as int));
                assert(payload.take(i - lo) =~= s@.subrange(lo as int, i as int));
            }
            ParsedCoreEdge {
                target: string_of_range(s, i + 1, n),
                loop_id: Some(string_of_range(s, lo, i)),
                loop_edge_kind: Some(kind),
                loop_entry_block: Some(string_of_range(s, i + 1, n)),
            }
        },
        None => {
            proof {
                lemma_rindex_shift(s@, lo as int, n as int);
                assert(s@.subrange(0, n as int) =~= s@);
            }
            plain_of_chars(s, 0, n)
        },
    }
}

proof fn lemma_rindex_shift(s: Seq<char>, lo: int, hi: int)
    requires
        0 <= lo <= hi <= s.len(),
    ensures
        char_rindex(s.subrange(lo, s.len() as int), ':', 0, hi - lo) == match char_rindex(s, ':', lo, hi) {
            Some(i) => Some(i - lo),
            None => None::<int>,
        },
    decreases hi - lo,
{
    if lo < hi {
        let t = s.subrange(lo, s.len() as int);
        assert(t[hi - lo - 1] == s[hi - 1]);
        if s[hi - 1] != ':' {
            lemma_rindex_shift(s, lo, hi - 1);
        }
    }
}

proof fn lemma_index_shift(s: Seq<char>, lo: int, a: int, hi: int)
    requires
        0 <= lo <= a <= hi,
        hi == s.len(),
    ensures
        char_index(s.skip(lo), ':', a - lo, hi - lo) == char_index(s, ':', a, hi) - lo,
    decreases hi - a,
{
    if a < hi {
        assert(s.skip(lo)[a - lo] == s[a]);
        if s[a] != ':' {
            lemma_index_shift(s, lo, a + 1, hi);
        }
    }
}

/// Takes apart a `loop_exit:` payload (`s[lo..]`), or gives a plain edge to
/// the whole string `s`.
pub fn parse_loop_exit_edge(s: &[char], lo: usize) -> (edge: ParsedCoreEdge)
    requires
        lo <= s@.len(),
    ensures
        edge@ == parsed_exit_edge(s@.skip(lo as int), s@),
{
    let n = s.len();
    let ghost p = s@.skip(lo as int);
    let c1 = find_char(s, ':', lo, n);
    proof {
        lemma_index_shift(s@, lo as int, lo as int, n as int);
    }
    if c1 < n {
        let c2 = find_char(s, ':', c1 + 1, n);
        proof {
            lemma_index_shift(s@, lo as int, c1 + 1, n as int);
        }
        if c2 < n {
            let c3 = find_char(s, ':', c2 + 1, n);
            proof {
                lemma_index_shift(s@, lo as int, c2 + 1, n as int);
            }
            if c3 < n {
                proof {
                    assert(p.take(c1 - lo) =~= s@.subrange(lo as int, c1 as int));
                    assert(p.subrange(c1 - lo + 1, c2 - lo) =~= s@.subrange(c1 + 1, c2 as int));
                    assert(p.skip(c3 - lo + 1) =~= s@.subrange(c3 + 1, n as int));
                    assert(p.subrange(c2 - lo + 1, c3 - lo) =~= s@.subrange(c2 + 1, c3 as int));
                }
                let kind_text = string_of_range(s, lo, c1);
                return ParsedCoreEdge {
                    target: string_of_range(s, c3 + 1, n),
                    loop_id: Some(string_of_range(s, c1 + 1, c2)),
                    loop_edge_kind: parsed_exit_kind(kind_text.as_str()),
                    loop_entry_block: Some(string_of_range(s, c2 + 1, c3)),
                };
            }
        }
    }
    match parse_legacy_loop_exit_edge(s, lo) {
        Some(edge) => edge,
        None => {
            proof {
                assert(s@.subrange(0, n as int) =~= s@);
            }
            plain_of_chars(s, 0, n)
        },
    }
}

/// Takes apart an older `loop_exit:` payload `s[lo..]` of the form
/// `<kind>:<entry>[:<target>]`.
pub fn parse_legacy_loop_exit_edge(s: &[char], lo: usize) -> (r: Option<ParsedCoreEdge>)
    requires
        lo <= s@.len(),
    ensures
        match r {
            Some(edge) => legacy_exit_edge(s@.skip(lo as int)) == Some(edge@),
            None => legacy_exit_edge(s@.skip(lo as int)) is None,
        },
{
    let n = s.len();
    let ghost p = s@.skip(lo as int);
    let c1 = find_char(s, ':', lo, n);
    proof {
        lemma_index_shift(s@, lo as int, lo as int, n as int);
    }
    if c1 >= n {
        return None;
    }
    let c2 = find_char(s, ':', c1 + 1, n);
    proof {
        lemma_index_shift(s@, lo as int, c1 + 1, n as int);
        assert(p.take(c1 - lo) =~= s@.subrange(lo as int, c1 as int));
    }
    let kind_text = string_of_range(s, lo, c1);
    let kind = parsed_exit_kind(kind_text.as_str());
    if c2 >= n {
        let mut target = copy_range(s, lo, c1);
        let suffix = chars_of("_exit");
        crate::text::push_all(&mut target, suffix.as_slice());
        proof {
            assert(p.skip(c1 - lo + 1) =~= s@.subrange(c1 + 1, n as int));
        }
        return Some(ParsedCoreEdge {
            target: string_from_chars(target.as_slice()),
            loop_id: None,
            loop_edge_kind: kind,
            loop_entry_block: Some(string_of_range(s, c1 + 1, n)),
        });
    }
    proof {
        assert(p.skip(c2 - lo + 1) =~= s@.subrange(c2 + 1, n as int));
        assert(p.subrange(c1 - lo + 1, c2 - lo) =~= s@.subrange(c1 + 1, c2 as int));
    }
    Some(ParsedCoreEdge {
        target: string_of_range(s, c2 + 1, n),
        loop_id: None,
        loop_edge_kind: kind,
        loop_entry_block: Some(string_of_range(s, c1 + 1, c2)),
    })
}

/// Adds `loop_id` to `regions` unless it is there already.
pub fn push_unique_loop_region(regions: &mut Vec<String>, loop_id: String)
    ensures
        crate::templates::texts(final(regions)@) == if crate::templates::texts(old(regions)@).contains(loop_id@) {
            crate::templates::texts(old(regions)@)
        } else {
            crate::templates::texts(old(regions)@).push(loop_id@)
        },
{
    let ghost names = crate::templates::texts(regions@);
    let mut i: usize = 0;
    while i < regions.len()
        invariant
            i <= regions@.len(),
            names == crate::templates::texts(regions@),
            forall|j: int| 0 <= j < i ==> names[j] != loop_id@,
        decreases regions@.len() - i,
    {
        if str_equals(regions[i].as_str(), loop_id.as_str()) {
            proof {
                assert(names[i as int] == loop_id@);
            }
            return;
        }
        i = i + 1;
    }
    let ghost before = regions@;
    regions.push(loop_id);
    proof {
        assert(crate::templates::texts(regions@) =~= names.push(loop_id@));
    }
}

/// Takes apart a Core edge string.
pub fn parse_core_edge(edge: &str) -> (parsed: ParsedCoreEdge)
    ensures
        parsed@ == parsed_core_edge(edge@),
{
    let s = chars_of(edge);
    let n = s.len();
    if starts_with_chars(s.as_slice(), "goto:") {
        let k = chars_of("goto:").len();
        proof {
            assert(s@.skip(k as int) =~= s@.subrange(k as int, n as int));
        }
        return plain_of_chars(s.as_slice(), k, n);
    }
    if starts_with_chars(s.as_slice(), "loop_back:") {
        let k = chars_of("loop_back:").len();
        return parse_loop_target_edge(s.as_slice(), k, ParsedLoopEdgeKind::BackEdge);
    }
    if starts_with_chars(s.as_slice(), "loop_continue:") {
        let k = chars_of("loop_continue:").len();
        return parse_loop_target_edge(s.as_slice(), k, ParsedLoopEdgeKind::Continue);
    }
    if starts_with_chars(s.as_slice(), "loop_exit:") {
        let k = chars_of("loop_exit:").len();
        return parse_loop_exit_edge(s.as_slice(), k);
    }
    proof {
        assert(s@.subrange(0, n as int) =~= s@);
    }
    plain_of_chars(s.as_slice(), 0, n)
}

/// The index `N` of a block named `bbN`.
pub open spec fn block_number(block: Seq<char>) -> Option<nat> {
    if has_prefix(block, "bb"@) {
        parse_unsigned(block.skip("bb"@.len() as int), usize::MAX as nat)
    } else {
        None
    }
}

/// The index `N` of a block named `bbN` (as `str::parse::<usize>` reads `N`).
pub fn block_index(block: &str) -> (r: Option<usize>)
    ensures
        match r {
            Some(i) => block_number(block@) == Some(i as nat),
            None => block_number(block@) is None,
        },
{
    let s = chars_of(block);
    if !starts_with_chars(s.as_slice(), "bb") {
        return None;
    }
    let k = chars_of("bb").len();
    proof {
        assert(s@.skip(k as int) =~= s@.subrange(k as int, s@.len() as int));
    }
    parse_usize(s.as_slice(), k, s.len())
}

/// The kind of a Core statement.
#[derive(Clone, Copy, Debug, PartialEq, Eq, Structural)]
pub enum CoreStatementKind {
    ObligationCreate,
    ObligationDischarge,
    ObligationTransfer,
    ObligationMove,
    ObligationBranchUnresolved,
    ObligationEscape,
    UnsupportedContainer,
    Call,
}

/// A statement of a Core block.
#[derive(Debug)]
pub struct CoreStatement {
    pub id: String,
    pub kind: CoreStatementKind,
    pub binding: Option<String>,
    pub action: Option<String>,
    pub source_span: KoboSpan,
}

/// A terminator of a Core block: its kind's name, its edge strings and, for
/// an await at a runtime boundary, the boundary it awaits.
#[derive(Debug)]
pub struct CoreTerminator {
    pub id: String,
    pub kind: String,
    pub edges: Vec<String>,
    pub boundary: Option<String>,
    pub source_span: KoboSpan,
}

/// A basic block of Core.
#[derive(Debug)]
pub struct CoreBlock {
    pub id: String,
    pub statements: Vec<CoreStatement>,
    pub terminators: Vec<CoreTerminator>,
}

/// A function of Core: its blocks, the entry block first.
#[derive(Debug)]
pub struct CoreFunction {
    pub name: String,
    pub blocks: Vec<CoreBlock>,
}

/// A node of the Core CFG: one block.
#[derive(Debug)]
pub struct CoreCfgNode {
    pub id: String,
    pub function: String,
    pub source_span: SourceSpan,
}

/// An edge of the Core CFG.
#[derive(Debug)]
pub struct CoreCfgEdge {
    pub id: String,
    pub function: String,
    pub from: String,
    pub to: String,
    pub kind: String,
    pub loop_id: Option<String>,
    pub loop_label: Option<String>,
    pub loop_edge_kind: Option<String>,
    pub loop_entry_block: Option<String>,
    pub source_span: SourceSpan,
}

/// Loop labels by loop id, as the loop-start operations give them; a later
/// operation for the same id wins.
#[derive(Debug)]
pub struct LoopLabels {
    entries: Vec<(String, Option<String>)>,
}

/// The map that a list of (id, label) entries describes, later entries winning.
pub open spec fn entries_map(entries: Seq<(String, Option<String>)>) -> Map<Seq<char>, Option<Seq<char>>>
    decreases entries.len(),
{
    if entries.len() == 0 {
        Map::empty()
    } else {
        entries_map(entries.drop_last()).insert(entries.last().0@, opt_chars(entries.last().1))
    }
}

/// The labels that a program's loop-start operations give, by loop id.
pub open spec fn labels_of_ops(ops: Seq<ScenarioOperation>) -> Map<Seq<char>, Option<Seq<char>>>
    decreases ops.len(),
{
    if ops.len() == 0 {
        Map::empty()
    } else {
        let m = labels_of_ops(ops.drop_last());
        match ops.last().kind {
            ScenarioOpKind::LoopStart { loop_id, label } => m.insert(loop_id@, opt_chars(label)),
            _ => m,
        }
    }
}

/// The label recorded for `loop_id`, if the loop is known and has one.
pub open spec fn label_for(labels: Map<Seq<char>, Option<Seq<char>>>, loop_id: Seq<char>) -> Option<Seq<char>> {
    if labels.contains_key(loop_id) {
        labels[loop_id]
    } else {
        None
    }
}

impl View for LoopLabels {
    type V = Map<Seq<char>, Option<Seq<char>>>;

    closed spec fn view(&self) -> Map<Seq<char>, Option<Seq<char>>> {
        entries_map(self.entries@)
    }
}

proof fn lemma_entries_map_last(entries: Seq<(String, Option<String>)>, k: Seq<char>, j: int)
    requires
        -1 <= j < entries.len(),
        forall|i: int| j < i < entries.len() ==> (#[trigger] entries[i]).0@ != k,
        0 <= j ==> entries[j].0@ == k,
    ensures
        j < 0 ==> !entries_map(entries).contains_key(k),
        0 <= j ==> entries_map(entries).contains_key(k) && entries_map(entries)[k] == opt_chars(entries[j].1),
    decreases entries.len(),
{
    if entries.len() > 0 && j < entries.len() - 1 {
        let prev = entries.drop_last();
        assert forall|i: int| j < i < prev.len() implies (#[trigger] prev[i]).0@ != k by {
            assert(prev[i] == entries[i]);
        }
        if 0 <= j {
            assert(prev[j] == entries[j]);
        }
        lemma_entries_map_last(prev, k, j);
    }
}

impl LoopLabels {
    /// The label recorded for `loop_id`, if the loop is known and has one.
    pub fn label_of(&self, loop_id: &str) -> (label: Option<String>)
        ensures
            opt_chars(label) == label_for(self@, loop_id@),
    {
        let mut j = self.entries.len();
        while j > 0
            invariant
                j <= self.entries@.len(),
                forall|i: int| j <= i < self.entries@.len() ==> (#[trigger] self.entries@[i]).0@ != loop_id@,
            decreases j,
        {
            if str_equals(self.entries[j - 1].0.as_str(), loop_id) {
                proof {
                    lemma_entries_map_last(self.entries@, loop_id@, j - 1);
                }
                return crate::config::clone_opt_string(&self.entries[j - 1].1);
            }
            j = j - 1;
        }
        proof {
            lemma_entries_map_last(self.entries@, loop_id@, -1);
        }
        None
    }
}

/// The labels of a program's loops by loop id.
pub fn loop_labels_by_id(program: &ScenarioProgram) -> (labels: LoopLabels)
    ensures
        labels@ == labels_of_ops(program.operations@),
{
    let mut entries: Vec<(String, Option<String>)> = Vec::new();
    let ops = &program.operations;
    let mut i: usize = 0;
    proof {
        assert(ops@.take(0) =~= Seq::<ScenarioOperation>::empty());
    }
    while i < ops.len()
        invariant
            i <= ops@.len(),
            entries_map(entries@) == labels_of_ops(ops@.take(i as int)),
        decreases ops@.len() - i,
    {
        proof {
            assert(ops@.take(i + 1).drop_last() =~= ops@.take(i as int));
            assert(ops@.take(i + 1).last() == ops@[i as int]);
        }
        match &ops[i].kind {
            ScenarioOpKind::LoopStart { loop_id, label } => {
                let ghost before = entries@;
                entries.push((loop_id.clone(), crate::config::clone_opt_string(label)));
                proof {
                    assert(entries@.drop_last() =~= before);
                }
            },
            _ => {},
        }
        i = i + 1;
    }
    proof {
        assert(ops@.take(i as int) =~= ops@);
    }
    LoopLabels { entries }
}

/// The position of one edge string: function, block, terminator and edge
/// indices.
pub type EdgeSite = (int, int, int, int);

pub open spec fn terminator_sites(fs: Seq<CoreFunction>, f: int, b: int, t: int, n: int) -> Seq<EdgeSite> {
    Seq::new(n as nat, |e: int| (f, b, t, e))
}

pub open spec fn block_sites(fs: Seq<CoreFunction>, f: int, b: int, nt: int) -> Seq<EdgeSite>
    decreases nt,
{
    if nt <= 0 {
        Seq::empty()
    } else {
        block_sites(fs, f, b, nt - 1)
            + terminator_sites(fs, f, b, nt - 1, fs[f].blocks@[b].terminators@[nt - 1].edges@.len() as int)
    }
}

pub open spec fn function_sites(fs: Seq<CoreFunction>, f: int, nb: int) -> Seq<EdgeSite>
    decreases nb,
{
    if nb <= 0 {
        Seq::empty()
    } else {
        function_sites(fs, f, nb - 1) + block_sites(fs, f, nb - 1, fs[f].blocks@[nb - 1].terminators@.len() as int)
    }
}

/// Every edge string of the functions in order: by function, block,
/// terminator and edge.
pub open spec fn edge_sites(fs: Seq<CoreFunction>, nf: int) -> Seq<EdgeSite>
    decreases nf,
{
    if nf <= 0 {
        Seq::empty()
    } else {
        edge_sites(fs, nf - 1) + function_sites(fs, nf - 1, fs[nf - 1].blocks@.len() as int)
    }
}

/// Every terminator of the functions starts on a character boundary of the source.
pub open spec fn terminator_spans_in(fs: Seq<CoreFunction>, source: Seq<char>) -> bool {
    forall|f: int, b: int, t: int|
        0 <= f < fs.len() && 0 <= b < fs[f].blocks@.len() && 0 <= t < fs[f].blocks@[b].terminators@.len()
        ==> byte_boundary(source, clamp_offset(source, (#[trigger] fs[f].blocks@[b].terminators@[t]).source_span.start as int))
}

/// `span` is the source span that `source_span_from_kobo` gives for `kobo`.
pub open spec fn span_for(span: SourceSpan, path: Seq<char>, source: Seq<char>, kobo: KoboSpan) -> bool {
    &&& span.path@ == path
    &&& span.start as int == clamp_offset(source, kobo.start as int)
    &&& span.end as int == clamp_offset(source, if kobo.end > span.start + 1 { kobo.end as int } else { span.start + 1 })
    &&& span.mapped == (span.end > span.start)
    &&& span.line == line_of_offset(source, kobo.start as int)
    &&& span.snippet@ == snippet_at(source, chars_before_byte(source, span.start as int))
}

/// `edge` is the CFG edge for the edge string at `site`.
pub open spec fn cfg_edge_at(edge: CoreCfgEdge, fs: Seq<CoreFunction>, labels: Map<Seq<char>, Option<Seq<char>>>, path: Seq<char>, source: Seq<char>, site: EdgeSite) -> bool {
    let function = fs[site.0];
    let block = function.blocks@[site.1];
    let terminator = block.terminators@[site.2];
    let parsed = parsed_core_edge(terminator.edges@[site.3]@);
    &&& edge.id@ == function.name@ + ":"@ + block.id@ + ":"@ + terminator.id@ + ":"@ + decimal_text(site.3 as nat)
    &&& edge.function@ == function.name@
    &&& edge.from@ == block.id@
    &&& edge.to@ == parsed.target
    &&& edge.kind@ == terminator.kind@
    &&& opt_chars(edge.loop_id) == parsed.loop_id
    &&& opt_chars(edge.loop_label) == match parsed.loop_id {
            Some(id) => label_for(labels, id),
            None => None,
        }
    &&& opt_chars(edge.loop_edge_kind) == match parsed.loop_edge_kind {
            Some(k) => Some(loop_edge_kind_name(k)),
            None => None,
        }
    &&& opt_chars(edge.loop_entry_block) == parsed.loop_entry_block
    &&& span_for(edge.source_span, path, source, terminator.source_span)
}

fn edge_id(function: &String, block: &String, terminator: &String, index: usize) -> (id: String)
    ensures
        id@ == function@ + ":"@ + block@ + ":"@ + terminator@ + ":"@ + decimal_text(index as nat),
{
    let mut id = function.clone();
    id.append(":");
    id.append(block.as_str());
    id.append(":");
    id.append(terminator.as_str());
    id.append(":");
    push_decimal(&mut id, index as u64);
    id
}

fn cfg_edge(source_path: &str, source: &str, function: &CoreFunction, block: &CoreBlock, terminator: &CoreTerminator, index: usize, loop_labels: &LoopLabels) -> (edge: CoreCfgEdge)
    requires
        index < terminator.edges@.len(),
        crate::text::utf8_len(source@) < usize::MAX,
        byte_boundary(source@, clamp_offset(source@, terminator.source_span.start as int)),
    ensures
        ({
            let parsed = parsed_core_edge(terminator.edges@[index as int]@);
            &&& edge.id@ == function.name@ + ":"@ + block.id@ + ":"@ + terminator.id@ + ":"@ + decimal_text(index as nat)
            &&& edge.function@ == function.name@
            &&& edge.from@ == block.id@
            &&& edge.to@ == parsed.target
            &&& edge.kind@ == terminator.kind@
            &&& opt_chars(edge.loop_id) == parsed.loop_id
            &&& opt_chars(edge.loop_label) == match parsed.loop_id {
                    Some(id) => label_for(loop_labels@, id),
                    None => None,
                }
            &&& opt_chars(edge.loop_edge_kind) == match parsed.loop_edge_kind {
                    Some(k) => Some(loop_edge_kind_name(k)),
                    None => None,
                }
            &&& opt_chars(edge.loop_entry_block) == parsed.loop_entry_block
            &&& span_for(edge.source_span, source_path@, source@, terminator.source_span)
        }),
{
    let parsed = parse_core_edge(terminator.edges[index].as_str());
    let loop_label = match &parsed.loop_id {
        Some(loop_id) => loop_labels.label_of(loop_id.as_str()),
        None => None,
    };
    let loop_edge_kind = match parsed.loop_edge_kind {
        Some(kind) => Some(crate::config::owned(kind.as_str())),
        None => None,
    };
    CoreCfgEdge {
        id: edge_id(&function.name, &block.id, &terminator.id, index),
        function: function.name.clone(),
        from: block.id.clone(),
        to: parsed.target,
        kind: terminator.kind.clone(),
        loop_id: parsed.loop_id,
        loop_label: loop_label,
        loop_edge_kind: loop_edge_kind,
        loop_entry_block: parsed.loop_entry_block,
        source_span: source_span_from_kobo(source_path, source, terminator.source_span),
    }
}

/// The CFG edges of the functions, one per edge string, in order.
pub fn core_cfg_edges(source_path: &str, source: &str, functions: &[CoreFunction], loop_labels: &LoopLabels) -> (edges: Vec<CoreCfgEdge>)
    requires
        crate::text::utf8_len(source@) < usize::MAX,
        terminator_spans_in(functions@, source@),
    ensures
        edges@.len() == edge_sites(functions@, functions@.len() as int).len(),
        forall|k: int| 0 <= k < edges@.len() ==> cfg_edge_at(#[trigger] edges@[k], functions@, loop_labels@, source_path@,
            source@, edge_sites(functions@, functions@.len() as int)[k]),
{
    let ghost fs = functions@;
    let mut edges: Vec<CoreCfgEdge> = Vec::new();
    let mut f: usize = 0;
    while f < functions.len()
        invariant
            fs == functions@,
            f <= fs.len(),
            crate::text::utf8_len(source@) < usize::MAX,
            terminator_spans_in(fs, source@),
            edges@.len() == edge_sites(fs, f as int).len(),
            forall|k: int| 0 <= k < edges@.len() ==> cfg_edge_at(#[trigger] edges@[k], fs, loop_labels@, source_path@,
                source@, edge_sites(fs, f as int)[k]),
        decreases fs.len() - f,
    {
        let function = &functions[f];
        let mut b: usize = 0;
        while b < function.blocks.len()
            invariant
                fs == functions@,
                f < fs.len(),
                *function == fs[f as int],
                b <= function.blocks@.len(),
                crate::text::utf8_len(source@) < usize::MAX,
                terminator_spans_in(fs, source@),
                edges@.len() == (edge_sites(fs, f as int) + function_sites(fs, f as int, b as int)).len(),
                forall|k: int| 0 <= k < edges@.len() ==> cfg_edge_at(#[trigger] edges@[k], fs, loop_labels@, source_path@,
                    source@, (edge_sites(fs, f as int) + function_sites(fs, f as int, b as int))[k]),
            decreases function.blocks@.len() - b,
        {
            let block = &function.blocks[b];
            let mut t: usize = 0;
            while t < block.terminators.len()
                invariant
                    fs == functions@,
                    f < fs.len(),
                    *function == fs[f as int],
                    b < function.blocks@.len(),
                    *block == function.blocks@[b as int],
                    t <= block.terminators@.len(),
                    crate::text::utf8_len(source@) < usize::MAX,
                    terminator_spans_in(fs, source@),
                    edges@.len() == (edge_sites(fs, f as int) + function_sites(fs, f as int, b as int)
                        + block_sites(fs, f as int, b as int, t as int)).len(),
                    forall|k: int| 0 <= k < edges@.len() ==> cfg_edge_at(#[trigger] edges@[k], fs, loop_labels@, source_path@,
                        source@, (edge_sites(fs, f as int) + function_sites(fs, f as int, b as int)
                        + block_sites(fs, f as int, b as int, t as int))[k]),
                decreases block.terminators@.len() - t,
            {
                let terminator = &block.terminators[t];
                let ghost before = edge_sites(fs, f as int) + function_sites(fs, f as int, b as int)
                    + block_sites(fs, f as int, b as int, t as int);
                proof {
                    assert(byte_boundary(source@, clamp_offset(source@, fs[f as int].blocks@[b as int].terminators@[t as int].source_span.start as int)));
                }
                let mut e: usize = 0;
                while e < terminator.edges.len()
                    invariant
                        fs == functions@,
                        f < fs.len(),
                        *function == fs[f as int],
                        b < function.blocks@.len(),
                        *block == function.blocks@[b as int],
                        t < block.terminators@.len(),
                        *terminator == block.terminators@[t as int],
                        e <= terminator.edges@.len(),
                        crate::text::utf8_len(source@) < usize::MAX,
                        byte_boundary(source@, clamp_offset(source@, terminator.source_span.start as int)),
                        edges@.len() == (before + terminator_sites(fs, f as int, b as int, t as int, e as int)).len(),
                        forall|k: int| 0 <= k < edges@.len() ==> cfg_edge_at(#[trigger] edges@[k], fs, loop_labels@, source_path@,
                            source@, (before + terminator_sites(fs, f as int, b as int, t as int, e as int))[k]),
                    decreases terminator.edges@.len() - e,
                {
                    let edge = cfg_edge(source_path, source, function, block, terminator, e, loop_labels);
                    let ghost old_edges = edges@;
                    edges.push(edge);
                    proof {
                        let sites = before + terminator_sites(fs, f as int, b as int, t as int, e + 1);
                        assert(sites =~= (before + terminator_sites(fs, f as int, b as int, t as int, e as int)).push((f as int, b as int, t as int, e as int)));
                        assert forall|k: int| 0 <= k < edges@.len() implies cfg_edge_at(#[trigger] edges@[k], fs, loop_labels@, source_path@,
                            source@, sites[k]) by {
                            if k < old_edges.len() {
                                assert(edges@[k] == old_edges[k]);
                            }
                        }
                    }
                    e = e + 1;
                }
                proof {
                    assert(before + terminator_sites(fs, f as int, b as int, t as int, e as int)
                        =~= edge_sites(fs, f as int) + function_sites(fs, f as int, b as int)
                        + block_sites(fs, f as int, b as int, t + 1));
                }
                t = t + 1;
            }
            proof {
                assert(edge_sites(fs, f as int) + function_sites(fs, f as int, b as int) + block_sites(fs, f as int, b as int, t as int)
                    =~= edge_sites(fs, f as int) + function_sites(fs, f as int, b + 1));
            }
            b = b + 1;
        }
        proof {
            assert(edge_sites(fs, f as int) + function_sites(fs, f as int, b as int) =~= edge_sites(fs, f + 1));
        }
        f = f + 1;
    }
    edges
}

/// A copy of a source span.
pub fn clone_span(span: &SourceSpan) -> (r: SourceSpan)
    ensures
        r == *span,
{
    SourceSpan {
        path: span.path.clone(),
        line: span.line,
        start: span.start,
        end: span.end,
        mapped: span.mapped,
        snippet: span.snippet.clone(),
    }
}

/// A loop back edge (or continue edge) of the Core CFG.
#[derive(Debug)]
pub struct CoreLoopBackEdgeFact {
    pub id: String,
    pub function: String,
    pub loop_id: String,
    pub loop_label: Option<String>,
    pub entry_block: String,
    pub back_edge_source: String,
    pub back_edge_target: String,
    pub source_span: SourceSpan,
}

/// An edge that leaves a loop.
#[derive(Debug)]
pub struct CoreLoopExitFact {
    pub id: String,
    pub function: String,
    pub loop_id: String,
    pub loop_label: Option<String>,
    pub entry_block: String,
    pub exit_source: String,
    pub exit_kind: String,
    pub exit_target: String,
    pub source_span: SourceSpan,
}

/// An edge between two `bbN` blocks that does not go forward.
pub open spec fn legacy_back_edge(edge: CoreCfgEdge) -> bool {
    match (block_number(edge.from@), block_number(edge.to@)) {
        (Some(source), Some(target)) => target <= source,
        _ => false,
    }
}

/// An edge marked as a loop back or continue edge; an unmarked edge that
/// does not go forward between `bbN` blocks.
pub open spec fn loop_back_edge(edge: CoreCfgEdge) -> bool {
    match opt_chars(edge.loop_edge_kind) {
        Some(kind) => kind == "back_edge"@ || kind == "continue"@,
        None => legacy_back_edge(edge),
    }
}

/// The exit kind of an edge marked as a break or condition exit.
pub open spec fn exit_kind_of(edge: CoreCfgEdge) -> Option<Seq<char>> {
    match opt_chars(edge.loop_edge_kind) {
        Some(kind) => if kind == "break"@ {
            Some("break"@)
        } else if kind == "condition"@ {
            Some("condition"@)
        } else {
            None
        },
        None => None,
    }
}

/// Whether an edge between `bbN` blocks does not go forward.
pub fn is_legacy_back_edge(edge: &CoreCfgEdge) -> (r: bool)
    ensures
        r == legacy_back_edge(*edge),
{
    let source_index = match block_index(edge.from.as_str()) {
        Some(i) => i,
        None => return false,
    };
    let target_index = match block_index(edge.to.as_str()) {
        Some(i) => i,
        None => return false,
    };
    target_index <= source_index
}

/// Whether an edge closes a loop.
pub fn is_loop_back_edge(edge: &CoreCfgEdge) -> (r: bool)
    ensures
        r == loop_back_edge(*edge),
{
    match &edge.loop_edge_kind {
        Some(kind) => str_equals(kind.as_str(), "back_edge") || str_equals(kind.as_str(), "continue"),
        None => is_legacy_back_edge(edge),
    }
}

/// The exit kind of an edge that leaves a loop.
pub fn loop_exit_kind(edge: &CoreCfgEdge) -> (r: Option<&'static str>)
    ensures
        match r {
            Some(k) => exit_kind_of(*edge) == Some(k@),
            None => exit_kind_of(*edge) is None,
        },
{
    match &edge.loop_edge_kind {
        Some(kind) => {
            if str_equals(kind.as_str(), "break") {
                Some("break")
            } else if str_equals(kind.as_str(), "condition") {
                Some("condition")
            } else {
                None
            }
        },
        None => None,
    }
}

/// The indices of the edges that `keep` holds of, in order.
pub open spec fn positions_where(edges: Seq<CoreCfgEdge>, keep: spec_fn(CoreCfgEdge) -> bool) -> Seq<int>
    decreases edges.len(),
{
    if edges.len() == 0 {
        Seq::empty()
    } else {
        let p = positions_where(edges.drop_last(), keep);
        if keep(edges.last()) {
            p.push(edges.len() - 1)
        } else {
            p
        }
    }
}

/// `fact` is the back-edge fact of `edge`.
pub open spec fn back_edge_fact_of(fact: CoreLoopBackEdgeFact, edge: CoreCfgEdge) -> bool {
    &&& fact.id@ == "loop-"@ + edge.function@ + "-"@ + edge.id@
    &&& fact.function == edge.function
    &&& fact.loop_id@ == match edge.loop_id {
            Some(id) => id@,
            None => "legacy-"@ + edge.function@ + "-"@ + edge.to@,
        }
    &&& fact.loop_label == edge.loop_label
    &&& fact.entry_block@ == match edge.loop_entry_block {
            Some(entry) => entry@,
            None => edge.to@,
        }
    &&& fact.back_edge_source == edge.from
    &&& fact.back_edge_target == edge.to
    &&& fact.source_span == edge.source_span
}

fn back_edge_fact(edge: &CoreCfgEdge) -> (fact: CoreLoopBackEdgeFact)
    ensures
        back_edge_fact_of(fact, *edge),
{
    let mut id = crate::config::owned("loop-");
    id.append(edge.function.as_str());
    id.append("-");
    id.append(edge.id.as_str());
    let loop_id = match &edge.loop_id {
        Some(l) => l.clone(),
        None => {
            let mut l = crate::config::owned("legacy-");
            l.append(edge.function.as_str());
            l.append("-");
            l.append(edge.to.as_str());
            l
        },
    };
    CoreLoopBackEdgeFact {
        id: id,
        function: edge.function.clone(),
        loop_id: loop_id,
        loop_label: crate::config::clone_opt_string(&edge.loop_label),
        entry_block: match &edge.loop_entry_block {
            Some(entry) => entry.clone(),
            None => edge.to.clone(),
        },
        back_edge_source: edge.from.clone(),
        back_edge_target: edge.to.clone(),
        source_span: clone_span(&edge.source_span),
    }
}

/// One fact per loop back edge, in edge order.
pub fn core_loop_facts(edges: &[CoreCfgEdge]) -> (facts: Vec<CoreLoopBackEdgeFact>)
    ensures
        facts@.len() == positions_where(edges@, |e: CoreCfgEdge| loop_back_edge(e)).len(),
        forall|k: int| 0 <= k < facts@.len() ==> back_edge_fact_of(#[trigger] facts@[k],
            edges@[positions_where(edges@, |e: CoreCfgEdge| loop_back_edge(e))[k]]),
{
    let ghost keep = |e: CoreCfgEdge| loop_back_edge(e);
    let mut facts: Vec<CoreLoopBackEdgeFact> = Vec::new();
    let mut i: usize = 0;
    proof {
        assert(edges@.take(0) =~= Seq::<CoreCfgEdge>::empty());
    }
    while i < edges.len()
        invariant
            i <= edges@.len(),
            forall|e: CoreCfgEdge| #[trigger] keep(e) == loop_back_edge(e),
            facts@.len() == positions_where(edges@.take(i as int), keep).len(),
            forall|k: int| 0 <= k < facts@.len() ==> back_edge_fact_of(#[trigger] facts@[k],
                edges@[positions_where(edges@.take(i as int), keep)[k]]),
            forall|k: int| 0 <= k < positions_where(edges@.take(i as int), keep).len()
                ==> 0 <= #[trigger] positions_where(edges@.take(i as int), keep)[k] < i,
        decreases edges@.len() - i,
    {
        proof {
            assert(edges@.take(i + 1).drop_last() =~= edges@.take(i as int));
            assert(edges@.take(i + 1).last() == edges@[i as int]);
            assert(keep(edges@[i as int]) == loop_back_edge(edges@[i as int]));
            let p_old = positions_where(edges@.take(i as int), keep);
            assert(positions_where(edges@.take(i + 1), keep) == if loop_back_edge(edges@[i as int]) {
                p_old.push(i as int)
            } else {
                p_old
            });
        }
        if is_loop_back_edge(&edges[i]) {
            let fact = back_edge_fact(&edges[i]);
            let ghost before = facts@;
            facts.push(fact);
            proof {
                assert forall|k: int| 0 <= k < facts@.len() implies back_edge_fact_of(#[trigger] facts@[k],
                    edges@[positions_where(edges@.take(i + 1), keep)[k]]) by {
                    if k < before.len() {
                        assert(facts@[k] == before[k]);
                    }
                }
            }
        }
        i = i + 1;
    }
    proof {
        assert(edges@.take(i as int) =~= edges@);
    }
    facts
}

/// Whether `edge` leaves a loop with a known entry block.
pub open spec fn leaves_loop(edge: CoreCfgEdge) -> bool {
    exit_kind_of(edge) is Some && edge.loop_entry_block is Some
}

/// `fact` is the exit fact of `edge`.
pub open spec fn exit_fact_of(fact: CoreLoopExitFact, edge: CoreCfgEdge) -> bool {
    let entry = edge.loop_entry_block->0;
    &&& fact.id@ == "loop-exit-"@ + edge.function@ + "-"@ + edge.id@
    &&& fact.function == edge.function
    &&& fact.loop_id@ == match edge.loop_id {
            Some(id) => id@,
            None => "legacy-"@ + edge.function@ + "-"@ + entry@,
        }
    &&& fact.loop_label == edge.loop_label
    &&& fact.entry_block == entry
    &&& fact.exit_source == edge.from
    &&& Some(fact.exit_kind@) == exit_kind_of(edge)
    &&& fact.exit_target == edge.to
    &&& fact.source_span == edge.source_span
}

fn exit_fact(edge: &CoreCfgEdge, kind: &str, entry: &String) -> (fact: CoreLoopExitFact)
    requires
        exit_kind_of(*edge) == Some(kind@),
        edge.loop_entry_block == Some(*entry),
    ensures
        exit_fact_of(fact, *edge),
{
    let mut id = crate::config::owned("loop-exit-");
    id.append(edge.function.as_str());
    id.append("-");
    id.append(edge.id.as_str());
    let loop_id = match &edge.loop_id {
        Some(l) => l.clone(),
        None => {
            let mut l = crate::config::owned("legacy-");
            l.append(edge.function.as_str());
            l.append("-");
            l.append(entry.as_str());
            l
        },
    };
    CoreLoopExitFact {
        id: id,
        function: edge.function.clone(),
        loop_id: loop_id,
        loop_label: crate::config::clone_opt_string(&edge.loop_label),
        entry_block: entry.clone(),
        exit_source: edge.from.clone(),
        exit_kind: crate::config::owned(kind),
        exit_target: edge.to.clone(),
        source_span: clone_span(&edge.source_span),
    }
}

/// One fact per edge that leaves a loop with a known entry block, in edge order.
pub fn core_loop_exit_facts(edges: &[CoreCfgEdge]) -> (facts: Vec<CoreLoopExitFact>)
    ensures
        facts@.len() == positions_where(edges@, |e: CoreCfgEdge| leaves_loop(e)).len(),
        forall|k: int| 0 <= k < facts@.len() ==> exit_fact_of(#[trigger] facts@[k],
            edges@[positions_where(edges@, |e: CoreCfgEdge| leaves_loop(e))[k]]),
{
    let ghost keep = |e: CoreCfgEdge| leaves_loop(e);
    let mut facts: Vec<CoreLoopExitFact> = Vec::new();
    let mut i: usize = 0;
    proof {
        assert(edges@.take(0) =~= Seq::<CoreCfgEdge>::empty());
    }
    while i < edges.len()
        invariant
            i <= edges@.len(),
            forall|e: CoreCfgEdge| #[trigger] keep(e) == leaves_loop(e),
            facts@.len() == positions_where(edges@.take(i as int), keep).len(),
            forall|k: int| 0 <= k < facts@.len() ==> exit_fact_of(#[trigger] facts@[k],
                edges@[positions_where(edges@.take(i as int), keep)[k]]),
            forall|k: int| 0 <= k < positions_where(edges@.take(i as int), keep).len()
                ==> 0 <= #[trigger] positions_where(edges@.take(i as int), keep)[k] < i,
        decreases edges@.len() - i,
    {
        proof {
            assert(edges@.take(i + 1).drop_last() =~= edges@.take(i as int));
            assert(edges@.take(i + 1).last() == edges@[i as int]);
            assert(keep(edges@[i as int]) == leaves_loop(edges@[i as int]));
            let p_old = positions_where(edges@.take(i as int), keep);
            assert(positions_where(edges@.take(i + 1), keep) == if leaves_loop(edges@[i as int]) {
                p_old.push(i as int)
            } else {
                p_old
            });
        }
        let edge = &edges[i];
        match loop_exit_kind(edge) {
            Some(kind) => {
                match &edge.loop_entry_block {
                    Some(entry) => {
                        let fact = exit_fact(edge, kind, entry);
                        let ghost before = facts@;
                        facts.push(fact);
                        proof {
                            assert forall|k: int| 0 <= k < facts@.len() implies exit_fact_of(#[trigger] facts@[k],
                                edges@[positions_where(edges@.take(i + 1), keep)[k]]) by {
                                if k < before.len() {
                                    assert(facts@[k] == before[k]);
                                }
                            }
                        }
                    },
                    None => {},
                }
            },
            None => {},
        }
        i = i + 1;
    }
    proof {
        assert(edges@.take(i as int) =~= edges@);
    }
    facts
}

/// The index of the first block named `id`, from `i` on.
pub open spec fn block_position(blocks: Seq<CoreBlock>, id: Seq<char>, i: int) -> Option<int>
    decreases blocks.len() - i,
{
    if i < 0 || i >= blocks.len() {
        None
    } else if blocks[i].id@ == id {
        Some(i)
    } else {
        block_position(blocks, id, i + 1)
    }
}

proof fn lemma_block_position(blocks: Seq<CoreBlock>, id: Seq<char>, i: int)
    requires
        0 <= i,
    ensures
        block_position(blocks, id, i) matches Some(k) ==> i <= k < blocks.len() && blocks[k].id@ == id
            && forall|j: int| i <= j < k ==> (#[trigger] blocks[j]).id@ != id,
        block_position(blocks, id, i) is None ==> forall|j: int| i <= j < blocks.len() ==> (#[trigger] blocks[j]).id@ != id,
    decreases blocks.len() - i,
{
    if 0 <= i < blocks.len() && blocks[i].id@ != id {
        lemma_block_position(blocks, id, i + 1);
    }
}

/// A function has a block named `id`.
pub open spec fn known_block(function: CoreFunction, id: Seq<char>) -> bool {
    exists|i: int| 0 <= i < function.blocks@.len() && (#[trigger] function.blocks@[i]).id@ == id
}

/// The first block named `id`.
fn find_block(blocks: &[CoreBlock], id: &str) -> (r: Option<usize>)
    ensures
        opt_index(r) == block_position(blocks@, id@, 0),
{
    let mut i: usize = 0;
    while i < blocks.len()
        invariant
            i <= blocks@.len(),
            block_position(blocks@, id@, 0) == block_position(blocks@, id@, i as int),
        decreases blocks@.len() - i,
    {
        if str_equals(blocks[i].id.as_str(), id) {
            return Some(i);
        }
        i = i + 1;
    }
    None
}

/// An edge the region walk of loop `fact` in `function` may follow: an edge of
/// the function to one of its `bbN`-named blocks that is not an edge of that
/// same loop.
pub open spec fn region_edge(function: CoreFunction, fact: CoreLoopBackEdgeFact, edge: CoreCfgEdge) -> bool {
    &&& edge.function@ == function.name@
    &&& has_prefix(edge.to@, "bb"@)
    &&& known_block(function, edge.to@)
    &&& !(opt_chars(edge.loop_id) == Some(fact.loop_id@) && edge.loop_edge_kind is Some)
}

/// One step of the region walk from block `a` to block `b`.
pub open spec fn region_step(function: CoreFunction, edges: Seq<CoreCfgEdge>, fact: CoreLoopBackEdgeFact, a: Seq<char>, b: Seq<char>) -> bool {
    exists|k: int| 0 <= k < edges.len() && region_edge(function, fact, #[trigger] edges[k])
        && edges[k].from@ == a && edges[k].to@ == b
}

/// `path` is a walk of the region steps.
pub open spec fn region_path(function: CoreFunction, edges: Seq<CoreCfgEdge>, fact: CoreLoopBackEdgeFact, path: Seq<Seq<char>>) -> bool {
    &&& path.len() >= 1
    &&& forall|i: int| 0 <= i < path.len() - 1 ==> region_step(function, edges, fact, #[trigger] path[i], path[i + 1])
}

/// Block `b` lies in the region of loop `fact`: the loop's entry block is a
/// block of the function and a walk leads from it to `b`.
pub open spec fn in_loop_region(function: CoreFunction, edges: Seq<CoreCfgEdge>, fact: CoreLoopBackEdgeFact, b: Seq<char>) -> bool {
    &&& known_block(function, fact.entry_block@)
    &&& exists|path: Seq<Seq<char>>| region_path(function, edges, fact, path) && path[0] == fact.entry_block@
        && path.last() == b
}

pub open spec fn count_unvisited(flags: Seq<bool>) -> nat
    decreases flags.len(),
{
    if flags.len() == 0 {
        0
    } else {
        count_unvisited(flags.drop_last()) + if flags.last() { 0nat } else { 1nat }
    }
}

proof fn lemma_count_unvisited_mark(flags: Seq<bool>, i: int)
    requires
        0 <= i < flags.len(),
        !flags[i],
    ensures
        count_unvisited(flags.update(i, true)) + 1 == count_unvisited(flags),
    decreases flags.len(),
{
    if i < flags.len() - 1 {
        assert(flags.update(i, true).drop_last() =~= flags.drop_last().update(i, true));
        lemma_count_unvisited_mark(flags.drop_last(), i);
    } else {
        assert(flags.update(i, true).drop_last() =~= flags.drop_last());
    }
}

proof fn lemma_region_path_extend(function: CoreFunction, edges: Seq<CoreCfgEdge>, fact: CoreLoopBackEdgeFact, a: Seq<char>, b: Seq<char>)
    requires
        in_loop_region(function, edges, fact, a),
        region_step(function, edges, fact, a, b),
    ensures
        in_loop_region(function, edges, fact, b),
{
    let path = choose|path: Seq<Seq<char>>| region_path(function, edges, fact, path) && path[0] == fact.entry_block@
        && path.last() == a;
    let longer = path.push(b);
    assert forall|i: int| 0 <= i < longer.len() - 1 implies region_step(function, edges, fact, #[trigger] longer[i], longer[i + 1]) by {
        if i < path.len() - 1 {
            assert(longer[i] == path[i]);
            assert(longer[i + 1] == path[i + 1]);
        }
    }
    assert(region_path(function, edges, fact, longer));
    assert(longer[0] == path[0]);
    assert(longer.last() == b);
}

/// Along a walk from a block of a step-closed set, every block is in the set.
proof fn lemma_closed_contains_path(function: CoreFunction, edges: Seq<CoreCfgEdge>, fact: CoreLoopBackEdgeFact, inside: spec_fn(Seq<char>) -> bool, path: Seq<Seq<char>>, n: int)
    requires
        region_path(function, edges, fact, path),
        inside(path[0]),
        forall|a: Seq<char>, b: Seq<char>| inside(a) && #[trigger] region_step(function, edges, fact, a, b) ==> inside(b),
        0 <= n < path.len(),
    ensures
        inside(path[n]),
    decreases n,
{
    if n > 0 {
        lemma_closed_contains_path(function, edges, fact, inside, path, n - 1);
        assert(region_step(function, edges, fact, path[n - 1], path[n]));
    }
}

pub open spec fn pending_or_visited(visited: Seq<bool>, queue: Seq<usize>, head: int, t: int) -> bool {
    visited[t] || exists|j: int| head <= j < queue.len() && queue[j] == t
}

proof fn lemma_pop_keeps_pending(before: Seq<bool>, after: Seq<bool>, queue: Seq<usize>, head: int, x: int, t: int)
    requires
        0 <= head < queue.len(),
        queue[head] == x,
        0 <= x < after.len(),
        after[x],
        before.len() == after.len(),
        forall|i: int| 0 <= i < before.len() && #[trigger] before[i] ==> after[i],
        0 <= t < before.len(),
        pending_or_visited(before, queue, head, t),
    ensures
        pending_or_visited(after, queue, head + 1, t),
{
    if !before[t] {
        let j = choose|j: int| head <= j < queue.len() && queue[j] == t;
        if j == head {
            assert(t == x);
        }
    }
}

/// Every step out of a visited block leads to a visited or pending block.
pub open spec fn steps_covered(function: CoreFunction, edges: Seq<CoreCfgEdge>, fact: CoreLoopBackEdgeFact, visited: Seq<bool>, queue: Seq<usize>, head: int, except: int, upto: int) -> bool {
    forall|i: int, k: int|
        0 <= i < visited.len() && #[trigger] visited[i] && 0 <= k < edges.len() && region_edge(function, fact, #[trigger] edges[k])
            && edges[k].from@ == function.blocks@[i].id@ && (i != except || k < upto)
        ==> pending_or_visited(visited, queue, head, block_position(function.blocks@, edges[k].to@, 0)->0)
}

proof fn lemma_push_keeps_pending(visited: Seq<bool>, queue: Seq<usize>, head: int, y: usize, t: int)
    requires
        0 <= head,
        pending_or_visited(visited, queue, head, t),
    ensures
        pending_or_visited(visited, queue.push(y), head, t),
{
    if !visited[t] {
        let j = choose|j: int| head <= j < queue.len() && queue[j] == t;
        assert(queue.push(y)[j] == t);
    }
}

/// The block an edge leads the region walk to from block `from`, if the walk
/// may follow it.
fn region_follow(function: &CoreFunction, fact: &CoreLoopBackEdgeFact, edge: &CoreCfgEdge, from: &String) -> (r: Option<usize>)
    ensures
        match r {
            Some(t) => region_edge(*function, *fact, *edge) && edge.from@ == from@
                && block_position(function.blocks@, edge.to@, 0) == Some(t as int),
            None => !(region_edge(*function, *fact, *edge) && edge.from@ == from@),
        },
{
    if !str_equals(edge.function.as_str(), function.name.as_str()) || !str_equals(edge.from.as_str(), from.as_str()) {
        return None;
    }
    let chars = chars_of(edge.to.as_str());
    if !starts_with_chars(chars.as_slice(), "bb") {
        return None;
    }
    proof {
        lemma_block_position(function.blocks@, edge.to@, 0);
    }
    match find_block(function.blocks.as_slice(), edge.to.as_str()) {
        Some(t) => {
            let same_loop = match &edge.loop_id {
                Some(id) => str_equals(id.as_str(), fact.loop_id.as_str()),
                None => false,
            };
            if same_loop && edge.loop_edge_kind.is_some() {
                None
            } else {
                proof {
                    assert(function.blocks@[t as int].id@ == edge.to@);
                }
                Some(t)
            }
        },
        None => None,
    }
}

/// The blocks of the region of loop `fact` in `function`: those that a walk
/// from the loop's entry block reaches along the function's edges to its
/// `bbN` blocks, not following the loop's own marked edges. Each block is
/// listed once.
pub fn loop_region_blocks(function: &CoreFunction, edges: &[CoreCfgEdge], fact: &CoreLoopBackEdgeFact) -> (region: Vec<String>)
    ensures
        forall|i: int, j: int| 0 <= i < j < region@.len() ==> (#[trigger] region@[i])@ != (#[trigger] region@[j])@,
        forall|i: int| 0 <= i < region@.len() ==> in_loop_region(*function, edges@, *fact, (#[trigger] region@[i])@),
        forall|b: Seq<char>| in_loop_region(*function, edges@, *fact, b) ==> exists|i: int| 0 <= i < region@.len() && (#[trigger] region@[i])@ == b,
{
    let blocks = &function.blocks;
    let ghost bs = blocks@;
    let n = blocks.len();
    let mut region: Vec<String> = Vec::new();
    let entry = match find_block(blocks.as_slice(), fact.entry_block.as_str()) {
        Some(e) => e,
        None => {
            proof {
                lemma_block_position(bs, fact.entry_block@, 0);
                assert(!known_block(*function, fact.entry_block@));
            }
            return region;
        },
    };
    proof {
        lemma_block_position(bs, fact.entry_block@, 0);
        assert(function.blocks@[entry as int].id@ == fact.entry_block@);
        assert(known_block(*function, fact.entry_block@));
        let p = seq![fact.entry_block@];
        assert(region_path(*function, edges@, *fact, p));
        assert(p[0] == fact.entry_block@ && p.last() == fact.entry_block@);
        assert(in_loop_region(*function, edges@, *fact, bs[entry as int].id@));
    }
    let mut visited: Vec<bool> = Vec::new();
    while visited.len() < n
        invariant
            visited@.len() <= n,
            n == bs.len(),
            forall|i: int| 0 <= i < visited@.len() ==> !visited@[i],
        decreases n - visited@.len(),
    {
        visited.push(false);
    }
    let mut queue: Vec<usize> = Vec::new();
    queue.push(entry);
    let mut head: usize = 0;
    proof {
        assert(queue@[0] == entry);
        assert(steps_covered(*function, edges@, *fact, visited@, queue@, head as int, -1, 0));
    }
    while head < queue.len()
        invariant
            bs == function.blocks@,
            n == bs.len(),
            visited@.len() == n,
            head <= queue@.len(),
            entry < n,
            bs[entry as int].id@ == fact.entry_block@,
            pending_or_visited(visited@, queue@, head as int, entry as int),
            forall|j: int| 0 <= j < queue@.len() ==> (#[trigger] queue@[j]) < n
                && block_position(bs, bs[queue@[j] as int].id@, 0) == Some(queue@[j] as int)
                && in_loop_region(*function, edges@, *fact, bs[queue@[j] as int].id@),
            forall|i: int| 0 <= i < n && #[trigger] visited@[i] ==> block_position(bs, bs[i].id@, 0) == Some(i)
                && in_loop_region(*function, edges@, *fact, bs[i].id@)
                && exists|r: int| 0 <= r < region@.len() && (#[trigger] region@[r])@ == bs[i].id@,
            forall|r: int| 0 <= r < region@.len() ==> exists|i: int| 0 <= i < n && visited@[i] && (#[trigger] region@[r])@ == bs[i].id@,
            forall|a: int, b: int| 0 <= a < b < region@.len() ==> (#[trigger] region@[a])@ != (#[trigger] region@[b])@,
            steps_covered(*function, edges@, *fact, visited@, queue@, head as int, -1, 0),
        decreases count_unvisited(visited@), queue@.len() - head,
    {
        let x = queue[head];
        proof {
            assert(queue@[head as int] == x);
            assert(x < n);
        }
        let ghost old_head = head as int;
        let ghost before_visited = visited@;
        head = head + 1;
        if visited[x] {
            proof {
                assert forall|t: int| 0 <= t < n && #[trigger] pending_or_visited(visited@, queue@, old_head, t)
                    implies pending_or_visited(visited@, queue@, head as int, t) by {
                    lemma_pop_keeps_pending(visited@, visited@, queue@, old_head, x as int, t);
                }
                lemma_pop_keeps_pending(visited@, visited@, queue@, old_head, x as int, entry as int);
            }
            continue;
        }
        proof {
            lemma_count_unvisited_mark(visited@, x as int);
        }
        visited.set(x, true);
        let ghost before_region = region@;
        region.push(function.blocks[x].id.clone());
        proof {
            lemma_pop_keeps_pending(before_visited, visited@, queue@, old_head, x as int, entry as int);
            assert forall|t: int| 0 <= t < n && #[trigger] pending_or_visited(before_visited, queue@, old_head, t)
                implies pending_or_visited(visited@, queue@, head as int, t) by {
                lemma_pop_keeps_pending(before_visited, visited@, queue@, old_head, x as int, t);
            }
            assert forall|i: int, k: int|
                0 <= i < visited@.len() && #[trigger] visited@[i] && 0 <= k < edges@.len() && region_edge(*function, *fact, #[trigger] edges@[k])
                    && edges@[k].from@ == function.blocks@[i].id@ && (i != x || k < 0)
                implies pending_or_visited(visited@, queue@, head as int, block_position(function.blocks@, edges@[k].to@, 0)->0) by {
                assert(before_visited[i]);
                lemma_block_position(bs, edges@[k].to@, 0);
                let t = block_position(function.blocks@, edges@[k].to@, 0)->0;
                assert(pending_or_visited(before_visited, queue@, old_head, t));
            }
        }
        proof {
            assert forall|i: int| 0 <= i < n && #[trigger] visited@[i] implies block_position(bs, bs[i].id@, 0) == Some(i)
                && in_loop_region(*function, edges@, *fact, bs[i].id@)
                && exists|r: int| 0 <= r < region@.len() && (#[trigger] region@[r])@ == bs[i].id@ by {
                if i == x as int {
                    assert(region@[region@.len() - 1]@ == bs[i].id@);
                } else {
                    assert(before_visited[i]);
                    let r = choose|r: int| 0 <= r < before_region.len() && (#[trigger] before_region[r])@ == bs[i].id@;
                    assert(region@[r] == before_region[r]);
                }
            }
            assert forall|r: int| 0 <= r < region@.len() implies exists|i: int| 0 <= i < n && visited@[i] && (#[trigger] region@[r])@ == bs[i].id@ by {
                if r < before_region.len() {
                    assert(region@[r] == before_region[r]);
                    let i = choose|i: int| 0 <= i < n && before_visited[i] && (#[trigger] before_region[r])@ == bs[i].id@;
                    assert(visited@[i]);
                } else {
                    assert(visited@[x as int]);
                }
            }
            assert forall|a: int, b: int| 0 <= a < b < region@.len() implies (#[trigger] region@[a])@ != (#[trigger] region@[b])@ by {
                if b == region@.len() - 1 {
                    assert(region@[a] == before_region[a]);
                    if before_region[a]@ == bs[x as int].id@ {
                        let i = choose|i: int| 0 <= i < n && before_visited[i] && (#[trigger] before_region[a])@ == bs[i].id@;
                        assert(block_position(bs, bs[i].id@, 0) == Some(i));
                        assert(i == x);
                    }
                } else {
                    assert(region@[a] == before_region[a]);
                    assert(region@[b] == before_region[b]);
                }
            }
        }
        let mut k: usize = 0;
        while k < edges.len()
            invariant
                bs == function.blocks@,
                n == bs.len(),
                visited@.len() == n,
                head <= queue@.len(),
                x < n,
                entry < n,
                visited@[x as int],
                pending_or_visited(visited@, queue@, head as int, entry as int),
                forall|j: int| 0 <= j < queue@.len() ==> (#[trigger] queue@[j]) < n
                    && block_position(bs, bs[queue@[j] as int].id@, 0) == Some(queue@[j] as int)
                    && in_loop_region(*function, edges@, *fact, bs[queue@[j] as int].id@),
                in_loop_region(*function, edges@, *fact, bs[x as int].id@),
                steps_covered(*function, edges@, *fact, visited@, queue@, head as int, x as int, k as int),
                k <= edges@.len(),
            decreases edges@.len() - k,
        {
            let ghost q_before = queue@;
            match region_follow(function, fact, &edges[k], &function.blocks[x].id) {
                Some(t) => {
                    proof {
                        lemma_block_position(bs, edges@[k as int].to@, 0);
                        assert(region_step(*function, edges@, *fact, bs[x as int].id@, edges@[k as int].to@));
                        lemma_region_path_extend(*function, edges@, *fact, bs[x as int].id@, edges@[k as int].to@);
                    }
                    queue.push(t);
                    proof {
                        assert(queue@[queue@.len() - 1] == t);
                        assert forall|j: int| 0 <= j < queue@.len() implies (#[trigger] queue@[j]) < n
                            && block_position(bs, bs[queue@[j] as int].id@, 0) == Some(queue@[j] as int)
                            && in_loop_region(*function, edges@, *fact, bs[queue@[j] as int].id@) by {
                            if j < q_before.len() {
                                assert(queue@[j] == q_before[j]);
                            }
                        }
                        lemma_push_keeps_pending(visited@, q_before, head as int, t, entry as int);
                    }
                },
                None => {},
            }
            proof {
                assert forall|i: int, k2: int|
                    0 <= i < visited@.len() && #[trigger] visited@[i] && 0 <= k2 < edges@.len() && region_edge(*function, *fact, #[trigger] edges@[k2])
                        && edges@[k2].from@ == function.blocks@[i].id@ && (i != x || k2 < k + 1)
                    implies pending_or_visited(visited@, queue@, head as int, block_position(function.blocks@, edges@[k2].to@, 0)->0) by {
                    let t = block_position(function.blocks@, edges@[k2].to@, 0)->0;
                    if i == x && k2 == k {
                        assert(queue@[queue@.len() - 1] == t);
                    } else {
                        assert(pending_or_visited(visited@, q_before, head as int, t));
                        if queue@ != q_before {
                            lemma_push_keeps_pending(visited@, q_before, head as int, queue@[queue@.len() - 1], t);
                            assert(q_before.push(queue@[queue@.len() - 1]) =~= queue@);
                        }
                    }
                }
            }
            k = k + 1;
        }
    }
    proof {
        assert(visited@[entry as int]);
        let inside = |b: Seq<char>| known_block(*function, b) && visited@[block_position(bs, b, 0)->0];
        assert forall|a: Seq<char>, b: Seq<char>| inside(a) && #[trigger] region_step(*function, edges@, *fact, a, b) implies inside(b) by {
            lemma_block_position(bs, a, 0);
            let k = choose|k: int| 0 <= k < edges@.len() && region_edge(*function, *fact, #[trigger] edges@[k])
                && edges@[k].from@ == a && edges@[k].to@ == b;
            let i = block_position(bs, a, 0)->0;
            assert(bs[i].id@ == a);
            lemma_block_position(bs, b, 0);
        }
        assert forall|b: Seq<char>| in_loop_region(*function, edges@, *fact, b) implies exists|i: int| 0 <= i < region@.len() && (#[trigger] region@[i])@ == b by {
            let path = choose|path: Seq<Seq<char>>| region_path(*function, edges@, *fact, path) && path[0] == fact.entry_block@
                && path.last() == b;
            lemma_block_position(bs, fact.entry_block@, 0);
            assert(inside(path[0]));
            lemma_closed_contains_path(*function, edges@, *fact, inside, path, path.len() - 1);
            lemma_block_position(bs, b, 0);
            let i = block_position(bs, b, 0)->0;
            assert(visited@[i]);
        }
    }
    region
}

/// The loops whose regions hold each block, by function and block.
#[derive(Debug)]
pub struct LoopRegionIndex {
    entries: Vec<(String, String, String)>,
}

/// The loop ids recorded for block `block` of function `function`, in the order
/// they were recorded.
pub open spec fn ids_for(entries: Seq<(String, String, String)>, function: Seq<char>, block: Seq<char>) -> Seq<Seq<char>>
    decreases entries.len(),
{
    if entries.len() == 0 {
        Seq::empty()
    } else {
        let prev = ids_for(entries.drop_last(), function, block);
        if entries.last().0@ == function && entries.last().1@ == block {
            prev.push(entries.last().2@)
        } else {
            prev
        }
    }
}

/// `s` with only the first occurrence of each element kept.
pub open spec fn first_occurrences(s: Seq<Seq<char>>) -> Seq<Seq<char>>
    decreases s.len(),
{
    if s.len() == 0 {
        Seq::empty()
    } else {
        let prev = first_occurrences(s.drop_last());
        if prev.contains(s.last()) {
            prev
        } else {
            prev.push(s.last())
        }
    }
}

/// The loop ids that the facts of one function contribute to block `block`,
/// from the first `n` facts: the id of each fact of that function whose
/// region holds the block.
pub open spec fn function_contribution(function: CoreFunction, edges: Seq<CoreCfgEdge>, facts: Seq<CoreLoopBackEdgeFact>, name: Seq<char>, block: Seq<char>, n: int) -> Seq<Seq<char>>
    decreases n,
{
    if n <= 0 {
        Seq::empty()
    } else {
        let prev = function_contribution(function, edges, facts, name, block, n - 1);
        let fact = facts[n - 1];
        if function.name@ == name && fact.function@ == name && in_loop_region(function, edges, fact, block) {
            prev.push(fact.loop_id@)
        } else {
            prev
        }
    }
}

/// The loop ids that the first `n` functions contribute to block `block` of
/// the function named `name`.
pub open spec fn region_contribution(fs: Seq<CoreFunction>, edges: Seq<CoreCfgEdge>, facts: Seq<CoreLoopBackEdgeFact>, name: Seq<char>, block: Seq<char>, n: int) -> Seq<Seq<char>>
    decreases n,
{
    if n <= 0 {
        Seq::empty()
    } else {
        region_contribution(fs, edges, facts, name, block, n - 1)
            + function_contribution(fs[n - 1], edges, facts, name, block, facts.len() as int)
    }
}

impl LoopRegionIndex {
    /// The loop ids recorded for a block.
    pub closed spec fn regions(&self, function: Seq<char>, block: Seq<char>) -> Seq<Seq<char>> {
        ids_for(self.entries@, function, block)
    }

    fn empty() -> (index: Self)
        ensures
            forall|f: Seq<char>, b: Seq<char>| index.regions(f, b) == Seq::<Seq<char>>::empty(),
    {
        LoopRegionIndex { entries: Vec::new() }
    }

    /// Records `loop_id` for a block unless it is recorded there already.
    fn push_unique(&mut self, function: &String, block: &String, loop_id: &String)
        ensures
            forall|f: Seq<char>, b: Seq<char>| #[trigger] final(self).regions(f, b) == if f == function@ && b == block@
                && !old(self).regions(f, b).contains(loop_id@) {
                old(self).regions(f, b).push(loop_id@)
            } else {
                old(self).regions(f, b)
            },
    {
        let ghost before = self.entries@;
        let mut i: usize = 0;
        let mut present = false;
        while i < self.entries.len()
            invariant
                i <= self.entries@.len(),
                self.entries@ == before,
                present == ids_for(self.entries@.take(i as int), function@, block@).contains(loop_id@),
            decreases self.entries@.len() - i,
        {
            proof {
                assert(self.entries@.take(i + 1).drop_last() =~= self.entries@.take(i as int));
            }
            let e = &self.entries[i];
            if str_equals(e.0.as_str(), function.as_str()) && str_equals(e.1.as_str(), block.as_str())
                && str_equals(e.2.as_str(), loop_id.as_str()) {
                present = true;
            }
            proof {
                let prev = ids_for(self.entries@.take(i as int), function@, block@);
                let e = self.entries@[i as int];
                if e.0@ == function@ && e.1@ == block@ {
                    assert(ids_for(self.entries@.take(i + 1), function@, block@) == prev.push(e.2@));
                    assert(prev.push(e.2@).contains(loop_id@) == (prev.contains(loop_id@) || e.2@ == loop_id@)) by {
                        if prev.push(e.2@).contains(loop_id@) {
                            let j = choose|j: int| 0 <= j < prev.len() + 1 && prev.push(e.2@)[j] == loop_id@;
                            if j < prev.len() {
                                assert(prev[j] == loop_id@);
                            }
                        }
                        if prev.contains(loop_id@) {
                            let j = choose|j: int| 0 <= j < prev.len() && prev[j] == loop_id@;
                            assert(prev.push(e.2@)[j] == loop_id@);
                        }
                        if e.2@ == loop_id@ {
                            assert(prev.push(e.2@)[prev.len() as int] == loop_id@);
                        }
                    }
                }
            }
            i = i + 1;
        }
        proof {
            assert(self.entries@.take(i as int) =~= self.entries@);
        }
        if !present {
            self.entries.push((function.clone(), block.clone(), loop_id.clone()));
            proof {
                assert(self.entries@.drop_last() =~= before);
            }
        }
    }

    /// The loops whose regions hold block `block` of function `function`.
    pub fn loop_regions_for_block(&self, function: &str, block: &str) -> (loops: Vec<String>)
        ensures
            loops@.map_values(|s: String| s@) == self.regions(function@, block@),
    {
        let mut loops: Vec<String> = Vec::new();
        let mut i: usize = 0;
        proof {
            assert(loops@.map_values(|s: String| s@) =~= ids_for(self.entries@.take(0), function@, block@));
        }
        while i < self.entries.len()
            invariant
                i <= self.entries@.len(),
                loops@.map_values(|s: String| s@) == ids_for(self.entries@.take(i as int), function@, block@),
            decreases self.entries@.len() - i,
        {
            proof {
                assert(self.entries@.take(i + 1).drop_last() =~= self.entries@.take(i as int));
            }
            let e = &self.entries[i];
            if str_equals(e.0.as_str(), function) && str_equals(e.1.as_str(), block) {
                let ghost before = loops@;
                loops.push(e.2.clone());
                proof {
                    assert(loops@.map_values(|s: String| s@) =~= before.map_values(|s: String| s@).push(e.2@));
                }
            }
            i = i + 1;
        }
        proof {
            assert(self.entries@.take(i as int) =~= self.entries@);
        }
        loops
    }
}

/// The contribution of the region walk of one fact so far: its loop id for a
/// block of the first `r` region blocks of its own function.
pub open spec fn partial_contribution(region: Seq<String>, r: int, name: Seq<char>, fact: CoreLoopBackEdgeFact, function: Seq<char>, block: Seq<char>) -> Seq<Seq<char>> {
    if function == name && fact.function@ == name && exists|j: int| 0 <= j < r && (#[trigger] region[j])@ == block {
        seq![fact.loop_id@]
    } else {
        Seq::empty()
    }
}

impl LoopRegionIndex {
    /// For each function and each loop fact of that function, records the
    /// fact's loop id for every block of the loop's region.
    pub fn from_core(functions: &[CoreFunction], edges: &[CoreCfgEdge], loop_facts: &[CoreLoopBackEdgeFact]) -> (index: Self)
        ensures
            forall|f: Seq<char>, b: Seq<char>| #[trigger] index.regions(f, b) == first_occurrences(
                region_contribution(functions@, edges@, loop_facts@, f, b, functions@.len() as int)),
    {
        let ghost fs = functions@;
        let ghost facts = loop_facts@;
        let mut index = LoopRegionIndex::empty();
        let mut fi: usize = 0;
        while fi < functions.len()
            invariant
                fs == functions@,
                facts == loop_facts@,
                fi <= fs.len(),
                forall|f: Seq<char>, b: Seq<char>| #[trigger] index.regions(f, b) == first_occurrences(
                    region_contribution(fs, edges@, facts, f, b, fi as int)),
            decreases fs.len() - fi,
        {
            let function = &functions[fi];
            let mut k: usize = 0;
            while k < loop_facts.len()
                invariant
                    fs == functions@,
                    facts == loop_facts@,
                    fi < fs.len(),
                    *function == fs[fi as int],
                    k <= facts.len(),
                    forall|f: Seq<char>, b: Seq<char>| #[trigger] index.regions(f, b) == first_occurrences(
                        region_contribution(fs, edges@, facts, f, b, fi as int)
                        + function_contribution(*function, edges@, facts, f, b, k as int)),
                decreases facts.len() - k,
            {
                let fact = &loop_facts[k];
                if str_equals(fact.function.as_str(), function.name.as_str()) {
                    let region = loop_region_blocks(function, edges, fact);
                    let mut r: usize = 0;
                    while r < region.len()
                        invariant
                            fs == functions@,
                            facts == loop_facts@,
                            fi < fs.len(),
                            *function == fs[fi as int],
                            k < facts.len(),
                            *fact == facts[k as int],
                            fact.function@ == function.name@,
                            r <= region@.len(),
                            forall|i: int, j: int| 0 <= i < j < region@.len() ==> (#[trigger] region@[i])@ != (#[trigger] region@[j])@,
                            forall|f: Seq<char>, b: Seq<char>| #[trigger] index.regions(f, b) == first_occurrences(
                                region_contribution(fs, edges@, facts, f, b, fi as int)
                                + function_contribution(*function, edges@, facts, f, b, k as int)
                                + partial_contribution(region@, r as int, function.name@, *fact, f, b)),
                        decreases region@.len() - r,
                    {
                        let ghost old_index = index;
                        index.push_unique(&function.name, &region[r], &fact.loop_id);
                        proof {
                            assert forall|f: Seq<char>, b: Seq<char>| #[trigger] index.regions(f, b) == first_occurrences(
                                region_contribution(fs, edges@, facts, f, b, fi as int)
                                + function_contribution(*function, edges@, facts, f, b, k as int)
                                + partial_contribution(region@, r + 1, function.name@, *fact, f, b)) by {
                                let base = region_contribution(fs, edges@, facts, f, b, fi as int)
                                    + function_contribution(*function, edges@, facts, f, b, k as int);
                                if f == function.name@ && b == region@[r as int]@ {
                                    assert(region@[r as int]@ == b);
                                    if exists|j: int| 0 <= j < r && (#[trigger] region@[j])@ == b {
                                        let j = choose|j: int| 0 <= j < r && (#[trigger] region@[j])@ == b;
                                        assert(false);
                                    }
                                    assert(partial_contribution(region@, r as int, function.name@, *fact, f, b) =~= Seq::<Seq<char>>::empty());
                                    assert(base + Seq::<Seq<char>>::empty() =~= base);
                                    assert(base + seq![fact.loop_id@] =~= base.push(fact.loop_id@));
                                    assert((base + seq![fact.loop_id@]).drop_last() =~= base);
                                } else {
                                    assert(partial_contribution(region@, r + 1, function.name@, *fact, f, b)
                                        == partial_contribution(region@, r as int, function.name@, *fact, f, b)) by {
                                        if exists|j: int| 0 <= j < r + 1 && (#[trigger] region@[j])@ == b {
                                            let j = choose|j: int| 0 <= j < r + 1 && (#[trigger] region@[j])@ == b;
                                            if f == function.name@ {
                                                assert(j != r);
                                            }
                                        }
                                    }
                                }
                            }
                        }
                        r = r + 1;
                    }
                    proof {
                        assert forall|f: Seq<char>, b: Seq<char>| #[trigger] index.regions(f, b) == first_occurrences(
                            region_contribution(fs, edges@, facts, f, b, fi as int)
                            + function_contribution(*function, edges@, facts, f, b, k + 1)) by {
                            let base = region_contribution(fs, edges@, facts, f, b, fi as int)
                                + function_contribution(*function, edges@, facts, f, b, k as int);
                            if f == function.name@ && in_loop_region(*function, edges@, *fact, b) {
                                let j = choose|j: int| 0 <= j < region@.len() && (#[trigger] region@[j])@ == b;
                                assert(region@[j]@ == b);
                                assert(base + partial_contribution(region@, r as int, function.name@, *fact, f, b) =~= base + seq![fact.loop_id@]);
                                assert(function_contribution(*function, edges@, facts, f, b, k + 1)
                                    == function_contribution(*function, edges@, facts, f, b, k as int).push(fact.loop_id@));
                                assert(base + seq![fact.loop_id@] =~= region_contribution(fs, edges@, facts, f, b, fi as int)
                                    + function_contribution(*function, edges@, facts, f, b, k + 1));
                            } else {
                                if f == function.name@ && exists|j: int| 0 <= j < region@.len() && (#[trigger] region@[j])@ == b {
                                    let j = choose|j: int| 0 <= j < region@.len() && (#[trigger] region@[j])@ == b;
                                    assert(in_loop_region(*function, edges@, *fact, region@[j]@));
                                }
                                assert(partial_contribution(region@, r as int, function.name@, *fact, f, b) =~= Seq::<Seq<char>>::empty());
                                assert(base + Seq::<Seq<char>>::empty() =~= base);
                            }
                        }
                    }
                } else {
                    proof {
                        assert forall|f: Seq<char>, b: Seq<char>|
                            function_contribution(*function, edges@, facts, f, b, k + 1)
                                == #[trigger] function_contribution(*function, edges@, facts, f, b, k as int) by {
                        }
                    }
                }
                k = k + 1;
            }
            proof {
                assert forall|f: Seq<char>, b: Seq<char>| region_contribution(fs, edges@, facts, f, b, fi as int)
                    + function_contribution(*function, edges@, facts, f, b, k as int)
                    == #[trigger] region_contribution(fs, edges@, facts, f, b, fi + 1) by {
                }
            }
            fi = fi + 1;
        }
        index
    }
}

/// The source range of a block: that of its first statement, else of its
/// first terminator, else the empty range at the start of file 0.
pub open spec fn block_kobo_span(block: CoreBlock) -> KoboSpan {
    if block.statements@.len() > 0 {
        block.statements@[0].source_span
    } else if block.terminators@.len() > 0 {
        block.terminators@[0].source_span
    } else {
        KoboSpan { file_id: 0, start: 0, end: 0 }
    }
}

/// The source range of a block.
pub fn block_span(block: &CoreBlock) -> (span: KoboSpan)
    ensures
        span == block_kobo_span(*block),
{
    if block.statements.len() > 0 {
        block.statements[0].source_span
    } else if block.terminators.len() > 0 {
        block.terminators[0].source_span
    } else {
        KoboSpan { file_id: 0, start: 0, end: 0 }
    }
}

/// The position of one block: function and block indices.
pub open spec fn function_block_sites(fs: Seq<CoreFunction>, f: int, nb: int) -> Seq<(int, int)> {
    Seq::new(nb as nat, |b: int| (f, b))
}

/// Every block of the functions in order.
pub open spec fn block_sites_of(fs: Seq<CoreFunction>, nf: int) -> Seq<(int, int)>
    decreases nf,
{
    if nf <= 0 {
        Seq::empty()
    } else {
        block_sites_of(fs, nf - 1) + function_block_sites(fs, nf - 1, fs[nf - 1].blocks@.len() as int)
    }
}

/// Every block of the functions starts on a character boundary of the source.
pub open spec fn block_spans_in(fs: Seq<CoreFunction>, source: Seq<char>) -> bool {
    forall|f: int, b: int| 0 <= f < fs.len() && 0 <= b < fs[f].blocks@.len()
        ==> byte_boundary(source, clamp_offset(source, block_kobo_span(#[trigger] fs[f].blocks@[b]).start as int))
}

/// `node` is the CFG node of the block at `site`.
pub open spec fn cfg_node_at(node: CoreCfgNode, fs: Seq<CoreFunction>, path: Seq<char>, source: Seq<char>, site: (int, int)) -> bool {
    let function = fs[site.0];
    let block = function.blocks@[site.1];
    &&& node.id == block.id
    &&& node.function == function.name
    &&& span_for(node.source_span, path, source, block_kobo_span(block))
}

/// The CFG nodes of the functions, one per block, in order.
pub fn core_cfg_nodes(source_path: &str, source: &str, functions: &[CoreFunction]) -> (nodes: Vec<CoreCfgNode>)
    requires
        crate::text::utf8_len(source@) < usize::MAX,
        block_spans_in(functions@, source@),
    ensures
        nodes@.len() == block_sites_of(functions@, functions@.len() as int).len(),
        forall|k: int| 0 <= k < nodes@.len() ==> cfg_node_at(#[trigger] nodes@[k], functions@, source_path@, source@,
            block_sites_of(functions@, functions@.len() as int)[k]),
{
    let ghost fs = functions@;
    let mut nodes: Vec<CoreCfgNode> = Vec::new();
    let mut f: usize = 0;
    while f < functions.len()
        invariant
            fs == functions@,
            f <= fs.len(),
            crate::text::utf8_len(source@) < usize::MAX,
            block_spans_in(fs, source@),
            nodes@.len() == block_sites_of(fs, f as int).len(),
            forall|k: int| 0 <= k < nodes@.len() ==> cfg_node_at(#[trigger] nodes@[k], fs, source_path@, source@,
                block_sites_of(fs, f as int)[k]),
        decreases fs.len() - f,
    {
        let function = &functions[f];
        let mut b: usize = 0;
        while b < function.blocks.len()
            invariant
                fs == functions@,
                f < fs.len(),
                *function == fs[f as int],
                b <= function.blocks@.len(),
                crate::text::utf8_len(source@) < usize::MAX,
                block_spans_in(fs, source@),
                nodes@.len() == (block_sites_of(fs, f as int) + function_block_sites(fs, f as int, b as int)).len(),
                forall|k: int| 0 <= k < nodes@.len() ==> cfg_node_at(#[trigger] nodes@[k], fs, source_path@, source@,
                    (block_sites_of(fs, f as int) + function_block_sites(fs, f as int, b as int))[k]),
            decreases function.blocks@.len() - b,
        {
            let block = &function.blocks[b];
            proof {
                assert(byte_boundary(source@, clamp_offset(source@, block_kobo_span(fs[f as int].blocks@[b as int]).start as int)));
            }
            let node = CoreCfgNode {
                id: block.id.clone(),
                function: function.name.clone(),
                source_span: source_span_from_kobo(source_path, source, block_span(block)),
            };
            let ghost before = nodes@;
            nodes.push(node);
            proof {
                let sites = block_sites_of(fs, f as int) + function_block_sites(fs, f as int, b + 1);
                assert(sites =~= (block_sites_of(fs, f as int) + function_block_sites(fs, f as int, b as int)).push((f as int, b as int)));
                assert forall|k: int| 0 <= k < nodes@.len() implies cfg_node_at(#[trigger] nodes@[k], fs, source_path@, source@, sites[k]) by {
                    if k < before.len() {
                        assert(nodes@[k] == before[k]);
                    }
                }
            }
            b = b + 1;
        }
        proof {
            assert(block_sites_of(fs, f as int) + function_block_sites(fs, f as int, b as int) =~= block_sites_of(fs, f + 1));
        }
        f = f + 1;
    }
    nodes
}

} // verus!
