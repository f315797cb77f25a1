//! Field-capability views: for each `using { .. }` list after a function's
//! signature, the fields it grants, grouped by the function and the parameter
//! that owns them, with their byte spans in the source.
use vstd::prelude::*;
use crate::capability::{CapabilityParam, CapabilityParamView, bounded_text, capability_context,
    capability_context_at, capability_context_sliceable, copy_text, ident_prefix_at, ident_prefix_bounds,
    ident_suffix_at, ident_suffix_bounds, param_views, skip_ws_front_exec};
use crate::scenario::KoboSpan;
use crate::text::{char_index, char_rindex, find_char, find_in, first_match, is_white_space,
    lemma_char_index, lemma_char_rindex, lemma_first_match, opt_index, rfind_char, skip_ws_front,
    starts_with_at, starts_with_at_exec, trim_bounds, trim_range, utf8_len, white_space};
use crate::ward::{trunc32, utf8_len_u32};

verus! {

/// A field that a capability list grants.
#[derive(Debug)]
pub struct FieldCapabilityField {
    pub name: String,
    pub mutable: bool,
    pub span: KoboSpan,
}

/// The fields of one owner that the capability lists of a function grant.
#[derive(Debug)]
pub struct FieldCapabilityView {
    pub function: String,
    pub owner: String,
    pub owner_type: Option<String>,
    pub using_span: KoboSpan,
    pub fields: Vec<FieldCapabilityField>,
}

/// A granted field with its name as characters.
pub struct FieldGrant {
    pub name: Seq<char>,
    pub mutable: bool,
    pub span: KoboSpan,
}

/// A view with its strings as characters.
pub struct CapabilityView {
    pub function: Seq<char>,
    pub owner: Seq<char>,
    pub owner_type: Option<Seq<char>>,
    pub using_span: KoboSpan,
    pub fields: Seq<FieldGrant>,
}

impl View for FieldCapabilityField {
    type V = FieldGrant;

    open spec fn view(&self) -> FieldGrant {
        FieldGrant { name: self.name@, mutable: self.mutable, span: self.span }
    }
}

pub open spec fn opt_text(value: Option<String>) -> Option<Seq<char>> {
    match value {
        Some(v) => Some(v@),
        None => None,
    }
}

impl View for FieldCapabilityView {
    type V = CapabilityView;

    open spec fn view(&self) -> CapabilityView {
        CapabilityView {
            function: self.function@,
            owner: self.owner@,
            owner_type: opt_text(self.owner_type),
            using_span: self.using_span,
            fields: self.fields@.map_values(|f: FieldCapabilityField| f@),
        }
    }
}

/// The byte offset of character `i` of `s`.
pub open spec fn byte_at(s: Seq<char>, i: int) -> int {
    utf8_len(s.take(i)) as int
}

/// A field as a piece of a capability list reads: the owner written before
/// its last `.`, its name, whether `mut ` comes first, and where the name
/// first occurs in the piece.
pub struct ParsedField {
    pub owner: Option<Seq<char>>,
    pub name: Seq<char>,
    pub mutable: bool,
    pub name_start: int,
}

/// The field that the piece `s[lo..hi]` of a capability list names, if any:
/// the trimmed piece, without a leading `mut ` (which makes it mutable), is
/// split at its last `.`; the owner is the last identifier before it and the
/// name the identifier that begins after it (or the whole piece without a `.`).
pub open spec fn field_in(s: Seq<char>, lo: int, hi: int) -> Option<ParsedField> {
    let (a, b) = trim_bounds(s, lo, hi);
    let mutable = starts_with_at(s, "mut"@, a, b) && a + 3 < b && is_white_space(s[a + 3]);
    let e = if mutable { skip_ws_front(s, a + 3, b) } else { a };
    let (owner, f) = match char_rindex(s, '.', e, b) {
        Some(d) => (bounded_text(s, ident_suffix_at(s, e, d)), d + 1),
        None => (None, e),
    };
    match ident_prefix_at(s, f, b) {
        None => None,
        Some((na, nb)) => {
            let name = s.subrange(na, nb);
            Some(ParsedField {
                owner: owner,
                name: name,
                mutable: mutable,
                name_start: match first_match(s, name, lo, hi) {
                    Some(x) => x,
                    None => lo,
                },
            })
        },
    }
}

/// The span of a parsed field's name: its byte range, each end truncated to
/// 32 bits.
pub open spec fn name_span(s: Seq<char>, f: ParsedField, file_id: u32) -> KoboSpan {
    KoboSpan {
        file_id: file_id,
        start: trunc32(byte_at(s, f.name_start)),
        end: trunc32(byte_at(s, f.name_start) + utf8_len(f.name)),
    }
}

proof fn lemma_trunc32_add(a: nat, b: nat)
    ensures
        trunc32((a + b) as int) == vstd::wrapping::u32_specs::wrapping_add(trunc32(a as int), trunc32(b as int)),
{
    let m: int = 0x1_0000_0000;
    vstd::arithmetic::div_mod::lemma_add_mod_noop(a as int, b as int, m);
    let x: int = (a as int) % m;
    let y: int = (b as int) % m;
    assert(0 <= x < m);
    assert(0 <= y < m);
    if x + y >= m {
        vstd::arithmetic::div_mod::lemma_mod_sub_multiples_vanish(x + y, m);
        vstd::arithmetic::div_mod::lemma_small_mod((x + y - m) as nat, m as nat);
    } else {
        vstd::arithmetic::div_mod::lemma_small_mod((x + y) as nat, m as nat);
    }
}

/// The 32-bit byte offset of character `i` of `s`.
fn byte_offset_u32(s: &[char], i: usize) -> (n: u32)
    requires
        i <= s@.len(),
    ensures
        n == trunc32(byte_at(s@, i as int)),
{
    let prefix = crate::text::copy_range(s, 0, i);
    proof {
        assert(prefix@ =~= s@.take(i as int));
    }
    utf8_len_u32(prefix.as_slice())
}

/// The field that the piece `s[lo..hi]` of a capability list names, if any,
/// with the span of its name.
pub fn capability_field(s: &[char], lo: usize, hi: usize, file_id: u32) -> (r: Option<(Option<String>, String, bool, KoboSpan)>)
    requires
        lo <= hi <= s@.len(),
    ensures
        match r {
            Some((owner, name, mutable, span)) => field_in(s@, lo as int, hi as int) matches Some(f)
                && opt_text(owner) == f.owner && name@ == f.name && mutable == f.mutable
                && span == name_span(s@, f, file_id),
            None => field_in(s@, lo as int, hi as int) is None,
        },
{
    let (a, b) = trim_range(s, lo, hi);
    let mut_word = ['m', 'u', 't'];
    proof {
        assert(mut_word@ == "mut"@) by {
            reveal_strlit("mut");
        }
    }
    let mutable = starts_with_at_exec(s, mut_word.as_slice(), a, b) && a + 3 < b && white_space(s[a + 3]);
    let e = if mutable { skip_ws_front_exec(s, a + 3, b) } else { a };
    proof {
        lemma_char_rindex(s@, '.', e as int, b as int);
    }
    let (owner, f) = match rfind_char(s, '.', e, b) {
        Some(d) => {
            let owner = match ident_suffix_bounds(s, e, d) {
                Some((x, y)) => Some(copy_text(s, x, y)),
                None => None,
            };
            (owner, d + 1)
        },
        None => (None, e),
    };
    let (na, nb) = match ident_prefix_bounds(s, f, b) {
        Some(bounds) => bounds,
        None => return None,
    };
    let name_chars = crate::text::copy_range(s, na, nb);
    let name_start = match find_in(s, name_chars.as_slice(), lo, hi) {
        Some(x) => x,
        None => lo,
    };
    proof {
        lemma_first_match(s@, name_chars@, lo as int, hi as int);
    }
    let start = byte_offset_u32(s, name_start);
    let width = utf8_len_u32(name_chars.as_slice());
    proof {
        lemma_trunc32_add(utf8_len(s@.take(name_start as int)), utf8_len(name_chars@));
    }
    let end = start.wrapping_add(width);
    let name = crate::strings::string_from_chars(name_chars.as_slice());
    Some((owner, name, mutable, KoboSpan { file_id: file_id, start: start, end: end }))
}

/// The pieces of `s[lo..hi]` between commas, as `str::split(',')` gives them.
pub open spec fn comma_pieces(s: Seq<char>, lo: int, hi: int) -> Seq<(int, int)>
    decreases hi - lo via comma_pieces_decreases
{
    if lo < 0 || hi > s.len() || lo > hi {
        Seq::empty()
    } else {
        let c = char_index(s, ',', lo, hi);
        if c >= hi {
            seq![(lo, hi)]
        } else {
            seq![(lo, c)] + comma_pieces(s, c + 1, hi)
        }
    }
}

#[via_fn]
proof fn comma_pieces_decreases(s: Seq<char>, lo: int, hi: int) {
    if !(lo < 0 || hi > s.len() || lo > hi) {
        lemma_char_index(s, ',', lo, hi);
    }
}

/// The capability lists that a scan of `s` from `from` finds: each
/// ` using {` with the `}` that closes it, as (start of ` using {`, start of
/// the list, position of the `}`); the scan stops at a list left open.
pub open spec fn using_sites(s: Seq<char>, from: int) -> Seq<(int, int, int)>
    decreases s.len() - from via using_sites_decreases
{
    if from < 0 || from > s.len() {
        Seq::empty()
    } else {
        match first_match(s, " using {"@, from, s.len() as int) {
            None => Seq::empty(),
            Some(u) => {
                let ls = u + " using {"@.len();
                let le = char_index(s, '}', ls, s.len() as int);
                if le >= s.len() {
                    Seq::empty()
                } else {
                    seq![(u, ls, le)] + using_sites(s, le + 1)
                }
            },
        }
    }
}

#[via_fn]
proof fn using_sites_decreases(s: Seq<char>, from: int) {
    if !(from < 0 || from > s.len()) {
        reveal_strlit(" using {");
        lemma_first_match(s, " using {"@, from, s.len() as int);
        match first_match(s, " using {"@, from, s.len() as int) {
            None => {},
            Some(u) => {
                lemma_char_index(s, '}', u + " using {"@.len(), s.len() as int);
            },
        }
    }
}

/// One granted field with the view it belongs to.
pub struct FieldEntry {
    pub function: Seq<char>,
    pub owner: Seq<char>,
    pub owner_type: Option<Seq<char>>,
    pub using_span: KoboSpan,
    pub field: FieldGrant,
}

/// The type of the first parameter named `owner`.
pub open spec fn param_type(params: Seq<CapabilityParamView>, owner: Seq<char>) -> Option<Seq<char>>
    decreases params.len(),
{
    if params.len() == 0 {
        None
    } else if params[0].name == owner {
        params[0].ty
    } else {
        param_type(params.drop_first(), owner)
    }
}

/// The owner a field refers to: the one written before its `.`, else the
/// function's last parameter, else `value`.
pub open spec fn owner_of(written: Option<Seq<char>>, default_owner: Option<Seq<char>>) -> Seq<char> {
    match written {
        Some(o) => o,
        None => match default_owner {
            Some(d) => d,
            None => "value"@,
        },
    }
}

/// The entries of the fields that the pieces name, in order.
pub open spec fn piece_entries(s: Seq<char>, pieces: Seq<(int, int)>, function: Seq<char>, default_owner: Option<Seq<char>>, params: Seq<CapabilityParamView>, using_span: KoboSpan, file_id: u32) -> Seq<FieldEntry>
    decreases pieces.len(),
{
    if pieces.len() == 0 {
        Seq::empty()
    } else {
        let prev = piece_entries(s, pieces.drop_last(), function, default_owner, params, using_span, file_id);
        match field_in(s, pieces.last().0, pieces.last().1) {
            None => prev,
            Some(f) => {
                let owner = owner_of(f.owner, default_owner);
                prev.push(FieldEntry {
                    function: function,
                    owner: owner,
                    owner_type: param_type(params, owner),
                    using_span: using_span,
                    field: FieldGrant { name: f.name, mutable: f.mutable, span: name_span(s, f, file_id) },
                })
            },
        }
    }
}

/// The byte span of a capability list, from its ` using {` to its `}`.
pub open spec fn using_span_of(s: Seq<char>, site: (int, int, int), file_id: u32) -> KoboSpan {
    KoboSpan { file_id: file_id, start: trunc32(byte_at(s, site.0)), end: trunc32(byte_at(s, site.2 + 1)) }
}

/// The entries of the fields of a capability list, where the function it
/// follows can be read.
pub open spec fn site_entries(s: Seq<char>, site: (int, int, int), file_id: u32) -> Seq<FieldEntry> {
    match capability_context_at(s, site.0) {
        None => Seq::empty(),
        Some((function, default_owner, params)) => piece_entries(s, comma_pieces(s, site.1, site.2), function,
            default_owner, params, using_span_of(s, site, file_id), file_id),
    }
}

/// The entries of the fields of the capability lists at `sites`, in order.
pub open spec fn all_entries(s: Seq<char>, sites: Seq<(int, int, int)>, file_id: u32) -> Seq<FieldEntry>
    decreases sites.len(),
{
    if sites.len() == 0 {
        Seq::empty()
    } else {
        all_entries(s, sites.drop_last(), file_id) + site_entries(s, sites.last(), file_id)
    }
}

/// The first of the first `n` views of `function` and `owner`.
pub open spec fn view_index(views: Seq<CapabilityView>, function: Seq<char>, owner: Seq<char>, n: int) -> Option<int>
    decreases n,
{
    if n <= 0 {
        None
    } else {
        match view_index(views, function, owner, n - 1) {
            Some(i) => Some(i),
            None => if views[n - 1].function == function && views[n - 1].owner == owner { Some(n - 1) } else { None },
        }
    }
}

/// `views` with the field of `e` added: to the view of its function and
/// owner where there is one, else in a new view.
pub open spec fn add_entry(views: Seq<CapabilityView>, e: FieldEntry) -> Seq<CapabilityView> {
    match view_index(views, e.function, e.owner, views.len() as int) {
        Some(i) => views.update(i, CapabilityView {
            function: views[i].function,
            owner: views[i].owner,
            owner_type: views[i].owner_type,
            using_span: views[i].using_span,
            fields: views[i].fields.push(e.field),
        }),
        None => views.push(CapabilityView {
            function: e.function,
            owner: e.owner,
            owner_type: e.owner_type,
            using_span: e.using_span,
            fields: seq![e.field],
        }),
    }
}

/// The views that the entries make, grouped by function and owner in the
/// order in which each group first appears.
pub open spec fn grouped(entries: Seq<FieldEntry>) -> Seq<CapabilityView>
    decreases entries.len(),
{
    if entries.len() == 0 {
        Seq::empty()
    } else {
        add_entry(grouped(entries.drop_last()), entries.last())
    }
}

/// `views` with the entries added in order.
pub open spec fn grouped_after(views: Seq<CapabilityView>, entries: Seq<FieldEntry>) -> Seq<CapabilityView>
    decreases entries.len(),
{
    if entries.len() == 0 {
        views
    } else {
        add_entry(grouped_after(views, entries.drop_last()), entries.last())
    }
}

proof fn lemma_grouped_is_after(entries: Seq<FieldEntry>)
    ensures
        grouped(entries) == grouped_after(Seq::empty(), entries),
    decreases entries.len(),
{
    if entries.len() > 0 {
        lemma_grouped_is_after(entries.drop_last());
    }
}

pub open spec fn views_of(v: Seq<FieldCapabilityView>) -> Seq<CapabilityView> {
    v.map_values(|x: FieldCapabilityView| x@)
}

proof fn lemma_view_index_stays(views: Seq<CapabilityView>, function: Seq<char>, owner: Seq<char>, m: int, n: int)
    requires
        0 <= m <= n,
        view_index(views, function, owner, m) is Some,
    ensures
        view_index(views, function, owner, n) == view_index(views, function, owner, m),
    decreases n - m,
{
    if n > m {
        lemma_view_index_stays(views, function, owner, m, n - 1);
    }
}

/// Adds a granted field to the view of its function and owner, or to a new
/// view where there is none yet.
fn add_field(views: &mut Vec<FieldCapabilityView>, function: &String, owner: String, owner_type: Option<String>, using_span: KoboSpan, field: FieldCapabilityField)
    ensures
        views_of(final(views)@) == add_entry(views_of(old(views)@), FieldEntry {
            function: function@,
            owner: owner@,
            owner_type: opt_text(owner_type),
            using_span: using_span,
            field: field@,
        }),
{
    let ghost vs = views_of(views@);
    let mut i: usize = 0;
    while i < views.len()
        invariant
            i <= views@.len(),
            vs == views_of(views@),
            views@ == old(views)@,
            view_index(vs, function@, owner@, i as int) is None,
        decreases views@.len() - i,
    {
        if views[i].function == *function && views[i].owner == owner {
            proof {
                assert(vs[i as int] == views@[i as int]@);
                assert(view_index(vs, function@, owner@, i + 1) == Some(i as int));
                lemma_view_index_stays(vs, function@, owner@, i + 1, vs.len() as int);
            }
            let mut view = views.remove(i);
            let ghost before_fields = view.fields@;
            view.fields.push(field);
            views.insert(i, view);
            proof {
                let e = FieldEntry { function: function@, owner: owner@, owner_type: opt_text(owner_type), using_span: using_span, field: field@ };
                assert(view.fields@.map_values(|f: FieldCapabilityField| f@) =~= before_fields.map_values(|f: FieldCapabilityField| f@).push(field@));
                assert(views_of(views@) =~= add_entry(vs, e));
            }
            return;
        }
        proof {
            assert(vs[i as int] == views@[i as int]@);
        }
        i = i + 1;
    }
    let ghost before = views@;
    views.push(FieldCapabilityView {
        function: function.clone(),
        owner: owner,
        owner_type: owner_type,
        using_span: using_span,
        fields: vec![field],
    });
    proof {
        assert(views_of(views@) =~= views_of(before).push(views@.last()@));
        assert(views@.last()@.fields =~= seq![field@]);
    }
}

/// The type of the first parameter named `owner`.
fn param_type_of(params: &Vec<CapabilityParam>, owner: &String) -> (r: Option<String>)
    ensures
        opt_text(r) == param_type(param_views(params@), owner@),
{
    let ghost pv = param_views(params@);
    let mut i: usize = 0;
    proof {
        assert(pv.skip(0) =~= pv);
    }
    while i < params.len()
        invariant
            i <= params@.len(),
            pv == param_views(params@),
            param_type(pv, owner@) == param_type(pv.skip(i as int), owner@),
        decreases params@.len() - i,
    {
        proof {
            assert(pv.skip(i as int)[0] == params@[i as int]@);
            assert(pv.skip(i as int).drop_first() =~= pv.skip(i + 1));
        }
        if params[i].name == *owner {
            return match &params[i].ty {
                Some(t) => Some(t.clone()),
                None => None,
            };
        }
        i = i + 1;
    }
    proof {
        assert(pv.skip(i as int) =~= Seq::<CapabilityParamView>::empty());
    }
    None
}

/// Adds the fields of the capability list `s[lo..hi]` (at `site`) of
/// `function` to the views.
fn add_list_fields(s: &[char], lo: usize, hi: usize, function: &String, default_owner: &Option<String>, params: &Vec<CapabilityParam>, using_span: KoboSpan, file_id: u32, views: &mut Vec<FieldCapabilityView>)
    requires
        lo <= hi <= s@.len(),
    ensures
        views_of(final(views)@) == grouped_after(views_of(old(views)@), piece_entries(s@, comma_pieces(s@, lo as int, hi as int),
            function@, opt_text(*default_owner), param_views(params@), using_span, file_id)),
{
    let ghost all = comma_pieces(s@, lo as int, hi as int);
    let ghost start = views_of(views@);
    let ghost mut done: Seq<(int, int)> = Seq::empty();
    let mut part_start: usize = lo;
    loop
        invariant_except_break
            all == done + comma_pieces(s@, part_start as int, hi as int),
        invariant
            lo <= part_start <= hi <= s@.len(),
            all == comma_pieces(s@, lo as int, hi as int),
            views_of(views@) == grouped_after(start, piece_entries(s@, done, function@, opt_text(*default_owner), param_views(params@), using_span, file_id)),
        ensures
            all == done,
            views_of(views@) == grouped_after(start, piece_entries(s@, done, function@, opt_text(*default_owner), param_views(params@), using_span, file_id)),
        decreases hi - part_start,
    {
        let c = find_char(s, ',', part_start, hi);
        let ghost piece = (part_start as int, c as int);
        let ghost next_done = done.push(piece);
        let ghost prev_entries = piece_entries(s@, done, function@, opt_text(*default_owner), param_views(params@), using_span, file_id);
        proof {
            assert(next_done.drop_last() =~= done);
            assert(next_done.last() == piece);
        }
        match capability_field(s, part_start, c, file_id) {
            Some((written, name, mutable, span)) => {
                let owner = match written {
                    Some(o) => o,
                    None => match default_owner {
                        Some(d) => d.clone(),
                        None => crate::config::owned("value"),
                    },
                };
                let owner_type = param_type_of(params, &owner);
                let field = FieldCapabilityField { name: name, mutable: mutable, span: span };
                let ghost e = FieldEntry {
                    function: function@,
                    owner: owner@,
                    owner_type: opt_text(owner_type),
                    using_span: using_span,
                    field: field@,
                };
                proof {
                    let f = field_in(s@, piece.0, piece.1)->0;
                    assert(owner@ == owner_of(f.owner, opt_text(*default_owner)));
                    assert(piece_entries(s@, next_done, function@, opt_text(*default_owner), param_views(params@), using_span, file_id)
                        == prev_entries.push(e));
                    assert(prev_entries.push(e).drop_last() =~= prev_entries);
                }
                add_field(views, function, owner, owner_type, using_span, field);
            },
            None => {
                proof {
                    assert(piece_entries(s@, next_done, function@, opt_text(*default_owner), param_views(params@), using_span, file_id)
                        == prev_entries);
                }
            },
        }
        proof {
            done = next_done;
        }
        if c >= hi {
            proof {
                assert(comma_pieces(s@, part_start as int, hi as int) == seq![piece]);
                assert(all =~= done);
            }
            break;
        }
        proof {
            assert(comma_pieces(s@, piece.0, hi as int) == seq![piece] + comma_pieces(s@, c + 1, hi as int));
            assert(all =~= done + comma_pieces(s@, c + 1, hi as int));
        }
        part_start = c + 1;
    }
}

proof fn lemma_grouped_after(views: Seq<CapabilityView>, a: Seq<FieldEntry>, b: Seq<FieldEntry>)
    ensures
        grouped_after(grouped_after(views, a), b) == grouped_after(views, a + b),
    decreases b.len(),
{
    if b.len() == 0 {
        assert(a + b =~= a);
    } else {
        lemma_grouped_after(views, a, b.drop_last());
        assert((a + b).drop_last() =~= a + b.drop_last());
        assert((a + b).last() == b.last());
    }
}

/// The field-capability views of a source: the fields that each
/// `using { .. }` list grants, grouped by function and owner in the order in
/// which each group first appears. A list whose function cannot be read is
/// skipped; the scan stops at a list that is never closed.
pub fn collect_field_capability_views(source: &str, file_id: u32) -> (views: Vec<FieldCapabilityView>)
    requires
        forall|i: int| 0 <= i < using_sites(source@, 0).len()
            ==> capability_context_sliceable(source@, (#[trigger] using_sites(source@, 0)[i]).0),
    ensures
        views_of(views@) == grouped(all_entries(source@, using_sites(source@, 0), file_id)),
{
    let s = crate::strings::chars_of(source);
    let ghost sites = using_sites(s@, 0);
    let needle = crate::strings::chars_of(" using {");
    proof {
        reveal_strlit(" using {");
    }
    let mut views: Vec<FieldCapabilityView> = Vec::new();
    let mut search_start: usize = 0;
    let ghost mut done: Seq<(int, int, int)> = Seq::empty();
    proof {
        assert(sites =~= done + using_sites(s@, 0));
        assert(views_of(views@) =~= grouped_after(Seq::empty(), all_entries(s@, done, file_id)));
    }
    loop
        invariant_except_break
            sites == done + using_sites(s@, search_start as int),
        invariant
            search_start <= s@.len(),
            s@ == source@,
            needle@ == " using {"@,
            sites == using_sites(s@, 0),
            forall|i: int| 0 <= i < sites.len() ==> capability_context_sliceable(s@, (#[trigger] sites[i]).0),
            views_of(views@) == grouped_after(Seq::empty(), all_entries(s@, done, file_id)),
        ensures
            sites == done,
        decreases s@.len() - search_start,
    {
        proof {
            reveal_strlit(" using {");
            lemma_first_match(s@, needle@, search_start as int, s@.len() as int);
        }
        let u = match find_in(s.as_slice(), needle.as_slice(), search_start, s.len()) {
            Some(u) => u,
            None => {
                proof {
                    assert(using_sites(s@, search_start as int) =~= Seq::empty());
                    assert(sites =~= done);
                }
                break;
            },
        };
        let ls = u + needle.len();
        proof {
            lemma_char_index(s@, '}', ls as int, s@.len() as int);
        }
        let le = find_char(s.as_slice(), '}', ls, s.len());
        if le >= s.len() {
            proof {
                assert(using_sites(s@, search_start as int) =~= Seq::empty());
                assert(sites =~= done);
            }
            break;
        }
        let ghost site = (u as int, ls as int, le as int);
        proof {
            assert(using_sites(s@, search_start as int) == seq![site] + using_sites(s@, le + 1));
            assert(sites[done.len() as int] == site);
        }
        let ghost before = views_of(views@);
        match capability_context(s.as_slice(), u) {
            Some((function, default_owner, params)) => {
                let start = byte_offset_u32(s.as_slice(), u);
                let end = byte_offset_u32(s.as_slice(), le + 1);
                let using_span = KoboSpan { file_id: file_id, start: start, end: end };
                add_list_fields(s.as_slice(), ls, le, &function, &default_owner, &params, using_span, file_id, &mut views);
                proof {
                    assert(using_span == using_span_of(s@, site, file_id));
                    assert(opt_text(default_owner) == match default_owner { Some(o) => Some(o@), None => None });
                }
            },
            None => {},
        }
        proof {
            let next = done.push(site);
            assert(next.drop_last() =~= done);
            lemma_grouped_after(Seq::empty(), all_entries(s@, done, file_id), site_entries(s@, site, file_id));
            assert(all_entries(s@, next, file_id) == all_entries(s@, done, file_id) + site_entries(s@, site, file_id));
            done = next;
            assert(sites =~= done + using_sites(s@, le + 1));
        }
        search_start = le + 1;
    }
    proof {
        lemma_grouped_is_after(all_entries(s@, done, file_id));
    }
    views
}

} // verus!
