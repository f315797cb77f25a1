//! Borrow overlap reports: where an immutable borrow of a binding overlaps a
//! mutable one, and where a borrow is still live when the binding is moved.
use vstd::prelude::*;
use crate::config::owned;
use crate::debt::SharedBindingFacts;
use crate::scenario::KoboSpan;

verus! {

/// How to fix a detected borrow overlap.
#[derive(Clone, Copy, Debug, PartialEq, Eq, Structural)]
pub enum BorrowFixPattern {
    /// Copy the field before borrowing.
    ExtractBeforeBorrow,
    /// Access different fields to split the borrow.
    SplitBorrow,
    /// Reduce borrow scope to avoid overlap.
    ScopeNarrowing,
    /// Clone the data.
    Clone,
}

/// Classification of a borrow conflict.
#[derive(Clone, Copy, Debug, PartialEq, Eq, Structural)]
pub enum BorrowConflictKind {
    /// An immutable borrow overlaps a mutable borrow.
    ReadWriteOverlap,
    /// Two or more mutable borrows alias the same binding.
    MultiMutableAlias,
    /// A borrow escapes the scope where the referent lives.
    LifetimeEscape,
}

/// Whether a borrow is shared or exclusive.
#[derive(Clone, Copy, Debug, PartialEq, Eq, Structural)]
pub enum BorrowKind {
    Immutable,
    Mutable,
}

/// One use of a binding.
#[derive(Clone, Copy, Debug, PartialEq, Eq, Structural)]
pub enum UseEvent {
    Borrowed { kind: BorrowKind, span: KoboSpan },
    Moved { span: KoboSpan },
    /// Any other use.
    Other { span: KoboSpan },
}

/// The uses of a binding after its declaration.
#[derive(Debug)]
pub struct BindingUsage {
    pub declaration: KoboSpan,
    pub uses: Vec<UseEvent>,
}

/// A single detected overlapping borrow site.
#[derive(Debug)]
pub struct BorrowOverlap {
    pub binding_name: String,
    pub conflict_kind: BorrowConflictKind,
    pub immutable_spans: Vec<KoboSpan>,
    pub mutable_spans: Vec<KoboSpan>,
    pub fix_pattern: Option<BorrowFixPattern>,
}

/// Report of all detected borrow overlaps for one or more bindings.
#[derive(Debug)]
pub struct BorrowReport {
    pub schema_version: u32,
    pub total_bindings_analyzed: usize,
    pub bindings_with_overlaps: usize,
    pub overlapping_sites: Vec<BorrowOverlap>,
}

/// An overlap site, as text.
pub struct BorrowOverlapView {
    pub binding_name: Seq<char>,
    pub conflict_kind: BorrowConflictKind,
    pub immutable_spans: Seq<KoboSpan>,
    pub mutable_spans: Seq<KoboSpan>,
    pub fix_pattern: Option<BorrowFixPattern>,
}

impl View for BorrowOverlap {
    type V = BorrowOverlapView;

    open spec fn view(&self) -> BorrowOverlapView {
        BorrowOverlapView {
            binding_name: self.binding_name@,
            conflict_kind: self.conflict_kind,
            immutable_spans: self.immutable_spans@,
            mutable_spans: self.mutable_spans@,
            fix_pattern: self.fix_pattern,
        }
    }
}

/// The texts of a list of overlap sites.
pub open spec fn overlap_views(v: Seq<BorrowOverlap>) -> Seq<BorrowOverlapView> {
    v.map_values(|o: BorrowOverlap| o@)
}

/// Two spans share a byte.
pub open spec fn kobo_spans_overlap(a: KoboSpan, b: KoboSpan) -> bool {
    a.start < b.end && b.start < a.end
}

/// The spans of the borrows of kind `kind`, in use order.
pub open spec fn borrow_spans(uses: Seq<UseEvent>, kind: BorrowKind) -> Seq<KoboSpan>
    decreases uses.len(),
{
    if uses.len() == 0 {
        Seq::empty()
    } else {
        let prev = borrow_spans(uses.drop_last(), kind);
        match uses.last() {
            UseEvent::Borrowed { kind: k, span } => if k == kind { prev.push(span) } else { prev },
            _ => prev,
        }
    }
}

/// The spans of the moves, in use order.
pub open spec fn move_spans(uses: Seq<UseEvent>) -> Seq<KoboSpan>
    decreases uses.len(),
{
    if uses.len() == 0 {
        Seq::empty()
    } else {
        let prev = move_spans(uses.drop_last());
        match uses.last() {
            UseEvent::Moved { span } => prev.push(span),
            _ => prev,
        }
    }
}

/// `s` without repeats, each span where it first occurs.
pub open spec fn dedup(s: Seq<KoboSpan>) -> Seq<KoboSpan>
    decreases s.len(),
{
    if s.len() == 0 {
        Seq::empty()
    } else {
        let d = dedup(s.drop_last());
        if d.contains(s.last()) { d } else { d.push(s.last()) }
    }
}

/// The mutable borrows that overlap `imm`, in order.
pub open spec fn overlapping(imm: KoboSpan, muts: Seq<KoboSpan>) -> Seq<KoboSpan> {
    muts.filter(|m: KoboSpan| kobo_spans_overlap(imm, m))
}

/// The mutable borrows overlapping each of the first `n` immutable ones, row
/// after row.
pub open spec fn overlap_rows(imms: Seq<KoboSpan>, muts: Seq<KoboSpan>, n: int) -> Seq<KoboSpan>
    decreases n,
{
    if n <= 0 {
        Seq::empty()
    } else {
        overlap_rows(imms, muts, n - 1) + overlapping(imms[n - 1], muts)
    }
}

/// An immutable borrow overlaps some mutable one.
pub open spec fn overlaps_any(imm: KoboSpan, muts: Seq<KoboSpan>) -> bool {
    exists|j: int| 0 <= j < muts.len() && kobo_spans_overlap(imm, #[trigger] muts[j])
}

/// The borrows that a move overlaps, once per overlapping move, in order.
pub open spec fn escapes(borrows: Seq<KoboSpan>, moves: Seq<KoboSpan>, n: int) -> Seq<KoboSpan>
    decreases n,
{
    if n <= 0 {
        Seq::empty()
    } else {
        escapes(borrows, moves, n - 1)
            + Seq::new(moves.filter(|m: KoboSpan| kobo_spans_overlap(borrows[n - 1], m)).len(), |k: int| borrows[n - 1])
    }
}

/// The report's sites: one read-write overlap listing the overlapping
/// immutable and mutable borrows (each once, in order of discovery), where
/// there is any; then, where a borrow is live at a move, one lifetime escape
/// per borrow and overlapping move.
pub open spec fn borrow_sites(name: Seq<char>, uses: Seq<UseEvent>, facts: SharedBindingFacts) -> Seq<BorrowOverlapView> {
    let imms = borrow_spans(uses, BorrowKind::Immutable);
    let muts = borrow_spans(uses, BorrowKind::Mutable);
    let moves = move_spans(uses);
    let rw = if exists|i: int| 0 <= i < imms.len() && overlaps_any(#[trigger] imms[i], muts) {
        seq![BorrowOverlapView {
            binding_name: name,
            conflict_kind: BorrowConflictKind::ReadWriteOverlap,
            immutable_spans: dedup(imms.filter(|s: KoboSpan| overlaps_any(s, muts))),
            mutable_spans: dedup(overlap_rows(imms, muts, imms.len() as int)),
            fix_pattern: Some(BorrowFixPattern::ScopeNarrowing),
        }]
    } else {
        Seq::empty()
    };
    let all = imms + muts;
    let escaped = if facts.live_borrow_at_move { escapes(all, moves, all.len() as int) } else { Seq::empty() };
    rw + escaped.map_values(|b: KoboSpan| BorrowOverlapView {
        binding_name: name,
        conflict_kind: BorrowConflictKind::LifetimeEscape,
        immutable_spans: seq![b],
        mutable_spans: Seq::empty(),
        fix_pattern: Some(BorrowFixPattern::Clone),
    })
}

fn overlap_exec(a: KoboSpan, b: KoboSpan) -> (r: bool)
    ensures
        r == kobo_spans_overlap(a, b),
{
    a.start < b.end && b.start < a.end
}

fn push_unique_span(v: &mut Vec<KoboSpan>, s: KoboSpan)
    ensures
        final(v)@ == if old(v)@.contains(s) { old(v)@ } else { old(v)@.push(s) },
{
    let mut i: usize = 0;
    while i < v.len()
        invariant
            i <= v@.len(),
            forall|j: int| 0 <= j < i ==> v@[j] != s,
        decreases v@.len() - i,
    {
        if v[i] == s {
            proof {
                assert(v@[i as int] == s);
            }
            return;
        }
        i = i + 1;
    }
    v.push(s);
}

/// The spans of a usage's immutable borrows, mutable borrows and moves.
fn collect_uses(uses: &[UseEvent]) -> (r: (Vec<KoboSpan>, Vec<KoboSpan>, Vec<KoboSpan>))
    ensures
        r.0@ == borrow_spans(uses@, BorrowKind::Immutable),
        r.1@ == borrow_spans(uses@, BorrowKind::Mutable),
        r.2@ == move_spans(uses@),
{
    let mut imms: Vec<KoboSpan> = Vec::new();
    let mut muts: Vec<KoboSpan> = Vec::new();
    let mut moves: Vec<KoboSpan> = Vec::new();
    let mut i: usize = 0;
    while i < uses.len()
        invariant
            i <= uses@.len(),
            imms@ == borrow_spans(uses@.take(i as int), BorrowKind::Immutable),
            muts@ == borrow_spans(uses@.take(i as int), BorrowKind::Mutable),
            moves@ == move_spans(uses@.take(i as int)),
        decreases uses@.len() - i,
    {
        proof {
            assert(uses@.take(i + 1).drop_last() =~= uses@.take(i as int));
            assert(uses@.take(i + 1).last() == uses@[i as int]);
        }
        match uses[i] {
            UseEvent::Borrowed { kind: BorrowKind::Immutable, span } => imms.push(span),
            UseEvent::Borrowed { kind: BorrowKind::Mutable, span } => muts.push(span),
            UseEvent::Moved { span } => moves.push(span),
            _ => {},
        }
        i = i + 1;
    }
    proof {
        assert(uses@.take(i as int) =~= uses@);
    }
    (imms, muts, moves)
}

proof fn lemma_dedup_push(s: Seq<KoboSpan>, x: KoboSpan)
    ensures
        dedup(s.push(x)) == if dedup(s).contains(x) { dedup(s) } else { dedup(s).push(x) },
{
    assert(s.push(x).drop_last() =~= s);
}

/// The overlapping immutable and mutable borrows, each once in order of
/// discovery, and whether there is any overlap.
fn read_write_overlaps(imms: &Vec<KoboSpan>, muts: &Vec<KoboSpan>) -> (r: (bool, Vec<KoboSpan>, Vec<KoboSpan>))
    ensures
        r.0 == exists|i: int| 0 <= i < imms@.len() && overlaps_any(#[trigger] imms@[i], muts@),
        r.1@ == dedup(imms@.filter(|s: KoboSpan| overlaps_any(s, muts@))),
        r.2@ == dedup(overlap_rows(imms@, muts@, imms@.len() as int)),
{
    let ghost any = |s: KoboSpan| overlaps_any(s, muts@);
    let mut has_overlap = false;
    let mut overlap_immut: Vec<KoboSpan> = Vec::new();
    let mut overlap_mut: Vec<KoboSpan> = Vec::new();
    let mut i: usize = 0;
    proof {
        assert(imms@.take(0).filter(any) =~= Seq::<KoboSpan>::empty());
    }
    while i < imms.len()
        invariant
            i <= imms@.len(),
            forall|s: KoboSpan| #[trigger] any(s) == overlaps_any(s, muts@),
            has_overlap == exists|k: int| 0 <= k < i && overlaps_any(#[trigger] imms@[k], muts@),
            overlap_immut@ == dedup(imms@.take(i as int).filter(any)),
            overlap_mut@ == dedup(overlap_rows(imms@, muts@, i as int)),
        decreases imms@.len() - i,
    {
        let imm = imms[i];
        let ghost row = |m: KoboSpan| kobo_spans_overlap(imm, m);
        let ghost rows = overlap_rows(imms@, muts@, i as int);
        let ghost done = dedup(imms@.take(i as int).filter(any));
        let mut found = false;
        let mut j: usize = 0;
        proof {
            assert(muts@.take(0).filter(row) =~= Seq::<KoboSpan>::empty());
            assert(rows + muts@.take(0).filter(row) =~= rows);
        }
        while j < muts.len()
            invariant
                j <= muts@.len(),
                i < imms@.len(),
                imm == imms@[i as int],
                forall|m: KoboSpan| #[trigger] row(m) == kobo_spans_overlap(imm, m),
                found == exists|q: int| 0 <= q < j && kobo_spans_overlap(imm, #[trigger] muts@[q]),
                has_overlap == ((exists|k: int| 0 <= k < i && overlaps_any(#[trigger] imms@[k], muts@)) || found),
                overlap_immut@ == if found { if done.contains(imm) { done } else { done.push(imm) } } else { done },
                overlap_mut@ == dedup(rows + muts@.take(j as int).filter(row)),
            decreases muts@.len() - j,
        {
            let mt = muts[j];
            proof {
                assert(muts@.take(j + 1).drop_last() =~= muts@.take(j as int));
                muts@.take(j as int).lemma_filter_push(mt, row);
                assert(muts@.take(j as int).push(mt) =~= muts@.take(j + 1));
            }
            if overlap_exec(imm, mt) {
                proof {
                    assert(overlaps_any(imms@[i as int], muts@));
                    if found && !done.contains(imm) {
                        assert(done.push(imm)[done.len() as int] == imm);
                        assert(overlap_immut@.contains(imm));
                    }
                }
                has_overlap = true;
                found = true;
                push_unique_span(&mut overlap_immut, imm);
                push_unique_span(&mut overlap_mut, mt);
                proof {
                    let x = muts@.take(j as int).filter(row);
                    assert((rows + x).push(mt) =~= rows + x.push(mt));
                    lemma_dedup_push(rows + x, mt);
                }
            }
            j = j + 1;
        }
        proof {
            assert(muts@.take(j as int) =~= muts@);
            assert(row =~= (|m: KoboSpan| kobo_spans_overlap(imm, m)));
            assert(overlap_rows(imms@, muts@, i + 1) == rows + overlapping(imm, muts@));
            assert(found == overlaps_any(imm, muts@));
            assert(imms@.take(i + 1).drop_last() =~= imms@.take(i as int));
            imms@.take(i as int).lemma_filter_push(imm, any);
            assert(imms@.take(i as int).push(imm) =~= imms@.take(i + 1));
            lemma_dedup_push(imms@.take(i as int).filter(any), imm);
        }
        i = i + 1;
    }
    proof {
        assert(imms@.take(i as int) =~= imms@);
        assert(any =~= (|s: KoboSpan| overlaps_any(s, muts@)));
    }
    (has_overlap, overlap_immut, overlap_mut)
}

/// The borrow overlap report of one binding.
pub fn build_borrow_report(binding_name: &str, usage: &BindingUsage, facts: &SharedBindingFacts) -> (report: BorrowReport)
    ensures
        report.schema_version == 1,
        report.total_bindings_analyzed == 1,
        overlap_views(report.overlapping_sites@) == borrow_sites(binding_name@, usage.uses@, *facts),
        report.bindings_with_overlaps == if report.overlapping_sites@.len() == 0 { 0usize } else { 1usize },
{
    let (imms, muts, moves) = collect_uses(usage.uses.as_slice());
    let (has_overlap, overlap_immut, overlap_mut) = read_write_overlaps(&imms, &muts);
    let mut sites: Vec<BorrowOverlap> = Vec::new();
    if has_overlap {
        sites.push(BorrowOverlap {
            binding_name: owned(binding_name),
            conflict_kind: BorrowConflictKind::ReadWriteOverlap,
            immutable_spans: overlap_immut,
            mutable_spans: overlap_mut,
            fix_pattern: Some(BorrowFixPattern::ScopeNarrowing),
        });
    }
    let ghost head = overlap_views(sites@);
    let ghost site_of = |b: KoboSpan| BorrowOverlapView {
        binding_name: binding_name@,
        conflict_kind: BorrowConflictKind::LifetimeEscape,
        immutable_spans: seq![b],
        mutable_spans: Seq::empty(),
        fix_pattern: Some(BorrowFixPattern::Clone),
    };
    let ghost all_spans = imms@ + muts@;
    if facts.live_borrow_at_move {
        let mut all: Vec<KoboSpan> = Vec::new();
        let mut k: usize = 0;
        while k < imms.len()
            invariant
                k <= imms@.len(),
                all@ == imms@.take(k as int),
            decreases imms@.len() - k,
        {
            all.push(imms[k]);
            proof {
                assert(all@ =~= imms@.take(k + 1));
            }
            k = k + 1;
        }
        let mut k: usize = 0;
        proof {
            assert(imms@.take(imms@.len() as int) =~= imms@);
        }
        while k < muts.len()
            invariant
                k <= muts@.len(),
                all@ == imms@ + muts@.take(k as int),
            decreases muts@.len() - k,
        {
            all.push(muts[k]);
            proof {
                assert(all@ =~= imms@ + muts@.take(k + 1));
            }
            k = k + 1;
        }
        proof {
            assert(muts@.take(k as int) =~= muts@);
            assert(all@ == all_spans);
        }
        let mut b: usize = 0;
        proof {
            assert(overlap_views(sites@) =~= head + escapes(all_spans, moves@, 0).map_values(site_of));
        }
        while b < all.len()
            invariant
                b <= all@.len(),
                all@ == all_spans,
                forall|x: KoboSpan| #[trigger] site_of(x) == (BorrowOverlapView {
                    binding_name: binding_name@,
                    conflict_kind: BorrowConflictKind::LifetimeEscape,
                    immutable_spans: seq![x],
                    mutable_spans: Seq::empty(),
                    fix_pattern: Some(BorrowFixPattern::Clone),
                }),
                overlap_views(sites@) == head + escapes(all_spans, moves@, b as int).map_values(site_of),
            decreases all@.len() - b,
        {
            let borrow = all[b];
            let ghost hit = |m: KoboSpan| kobo_spans_overlap(borrow, m);
            let ghost base = overlap_views(sites@);
            let mut m: usize = 0;
            proof {
                assert(moves@.take(0).filter(hit) =~= Seq::<KoboSpan>::empty());
                assert(Seq::new(moves@.take(0).filter(hit).len(), |q: int| borrow).map_values(site_of) =~= Seq::<BorrowOverlapView>::empty());
                assert(overlap_views(sites@) =~= base + Seq::new(moves@.take(0).filter(hit).len(), |q: int| borrow).map_values(site_of));
            }
            while m < moves.len()
                invariant
                    m <= moves@.len(),
                    forall|x: KoboSpan| #[trigger] hit(x) == kobo_spans_overlap(borrow, x),
                    forall|x: KoboSpan| #[trigger] site_of(x) == (BorrowOverlapView {
                        binding_name: binding_name@,
                        conflict_kind: BorrowConflictKind::LifetimeEscape,
                        immutable_spans: seq![x],
                        mutable_spans: Seq::empty(),
                        fix_pattern: Some(BorrowFixPattern::Clone),
                    }),
                    overlap_views(sites@) == base + Seq::new(moves@.take(m as int).filter(hit).len(), |q: int| borrow).map_values(site_of),
                decreases moves@.len() - m,
            {
                let mv = moves[m];
                proof {
                    assert(moves@.take(m + 1).drop_last() =~= moves@.take(m as int));
                    moves@.take(m as int).lemma_filter_push(mv, hit);
                    assert(moves@.take(m as int).push(mv) =~= moves@.take(m + 1));
                }
                if overlap_exec(borrow, mv) {
                    let ghost before = overlap_views(sites@);
                    let mut spans: Vec<KoboSpan> = Vec::new();
                    spans.push(borrow);
                    sites.push(BorrowOverlap {
                        binding_name: owned(binding_name),
                        conflict_kind: BorrowConflictKind::LifetimeEscape,
                        immutable_spans: spans,
                        mutable_spans: Vec::new(),
                        fix_pattern: Some(BorrowFixPattern::Clone),
                    });
                    proof {
                        let n = moves@.take(m as int).filter(hit).len();
                        assert(overlap_views(sites@) =~= before.push(site_of(borrow)));
                        assert(Seq::new(n + 1, |q: int| borrow).map_values(site_of)
                            =~= Seq::new(n, |q: int| borrow).map_values(site_of).push(site_of(borrow)));
                    }
                }
                m = m + 1;
            }
            proof {
                assert(moves@.take(m as int) =~= moves@);
                assert(hit =~= (|x: KoboSpan| kobo_spans_overlap(all_spans[b as int], x)));
                let prev = escapes(all_spans, moves@, b as int);
                let row = Seq::new(moves@.filter(hit).len(), |q: int| borrow);
                assert(escapes(all_spans, moves@, b + 1) == prev + row);
                assert((prev + row).map_values(site_of) =~= prev.map_values(site_of) + row.map_values(site_of));
            }
            b = b + 1;
        }
    }
    proof {
        let escaped = if facts.live_borrow_at_move { escapes(all_spans, moves@, all_spans.len() as int) } else { Seq::<KoboSpan>::empty() };
        assert(site_of =~= (|x: KoboSpan| BorrowOverlapView {
            binding_name: binding_name@,
            conflict_kind: BorrowConflictKind::LifetimeEscape,
            immutable_spans: seq![x],
            mutable_spans: Seq::empty(),
            fix_pattern: Some(BorrowFixPattern::Clone),
        }));
        if !facts.live_borrow_at_move {
            assert(escaped.map_values(site_of) =~= Seq::<BorrowOverlapView>::empty());
            assert(overlap_views(sites@) =~= head + escaped.map_values(site_of));
        }
    }
    let with_overlaps = if sites.len() == 0 { 0 } else { 1 };
    BorrowReport {
        schema_version: 1,
        total_bindings_analyzed: 1,
        bindings_with_overlaps: with_overlaps,
        overlapping_sites: sites,
    }
}

} // verus!
