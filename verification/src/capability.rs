//! Reading the signature around a field-capability list `fn f(a: &mut T) using { .. }`:
//! identifiers at either end of a piece of text, the parameter list of the
//! enclosing function, and the function itself.
use vstd::prelude::*;
use crate::strings::{chars_of, string_from_chars};
use crate::text::{char_index, char_rindex, copy_range, find_char, is_ident, is_ident_char,
    is_white_space, lemma_char_index, lemma_char_rindex, lemma_skip_ws_bounds, matches_at,
    rfind_char, skip_ws_front, starts_with_at, starts_with_at_exec, trim_bounds, trim_range,
    white_space, opt_index};
use crate::ward::skip_char_front;

verus! {

/// End of the run of identifier characters of `s` that starts at `i` (at most `hi`).
pub open spec fn ident_run_end(s: Seq<char>, i: int, hi: int) -> int
    decreases hi - i,
{
    if 0 <= i < hi && is_ident_char(s[i]) {
        ident_run_end(s, i + 1, hi)
    } else {
        i
    }
}

/// Start of the run of identifier characters of `s` that ends at `e` (at least `lo`).
pub open spec fn ident_run_start(s: Seq<char>, lo: int, e: int) -> int
    decreases e - lo,
{
    if lo < e && is_ident_char(s[e - 1]) {
        ident_run_start(s, lo, e - 1)
    } else {
        e
    }
}

/// `hi` moved back over the characters of `s[lo..hi]` that are not identifier characters.
pub open spec fn non_ident_back(s: Seq<char>, lo: int, hi: int) -> int
    decreases hi - lo,
{
    if lo < hi && !is_ident_char(s[hi - 1]) {
        non_ident_back(s, lo, hi - 1)
    } else {
        hi
    }
}

/// The identifier that `s[lo..hi]` begins with after leading white space.
pub open spec fn ident_prefix_at(s: Seq<char>, lo: int, hi: int) -> Option<(int, int)> {
    let a = skip_ws_front(s, lo, hi);
    let b = ident_run_end(s, a, hi);
    if a < b { Some((a, b)) } else { None }
}

/// The last identifier in `s[lo..hi]`: the last non-empty piece when the text is
/// split at every character that is not an identifier character.
pub open spec fn ident_suffix_at(s: Seq<char>, lo: int, hi: int) -> Option<(int, int)> {
    let e = non_ident_back(s, lo, hi);
    if e <= lo { None } else { Some((ident_run_start(s, lo, e), e)) }
}

/// A type with its leading `&`s, white space and a `mut ` qualifier removed.
pub open spec fn type_prefix_bounds(s: Seq<char>, lo: int, hi: int) -> (int, int) {
    let (a, b) = trim_bounds(s, lo, hi);
    let c = skip_ws_front(s, skip_char_front(s, '&', a, b), b);
    if starts_with_at(s, "mut"@, c, b) && c + 3 < b && is_white_space(s[c + 3]) {
        (skip_ws_front(s, c + 3, b), b)
    } else {
        (c, b)
    }
}

pub proof fn lemma_ident_runs(s: Seq<char>, lo: int, hi: int)
    requires
        0 <= lo <= hi <= s.len(),
    ensures
        lo <= ident_run_end(s, lo, hi) <= hi,
        forall|k: int| lo <= k < ident_run_end(s, lo, hi) ==> is_ident_char(#[trigger] s[k]),
        ident_run_end(s, lo, hi) < hi ==> !is_ident_char(s[ident_run_end(s, lo, hi)]),
        lo <= ident_run_start(s, lo, hi) <= hi,
        forall|k: int| ident_run_start(s, lo, hi) <= k < hi ==> is_ident_char(#[trigger] s[k]),
        lo <= non_ident_back(s, lo, hi) <= hi,
        forall|k: int| non_ident_back(s, lo, hi) <= k < hi ==> !is_ident_char(#[trigger] s[k]),
    decreases hi - lo,
{
    if lo < hi {
        lemma_ident_runs(s, lo + 1, hi);
        lemma_ident_runs(s, lo, hi - 1);
    }
}

proof fn lemma_skip_char_front(s: Seq<char>, c: char, lo: int, hi: int)
    requires
        0 <= lo <= hi <= s.len(),
    ensures
        lo <= skip_char_front(s, c, lo, hi) <= hi,
    decreases hi - lo,
{
    if lo < hi && s[lo] == c {
        lemma_skip_char_front(s, c, lo + 1, hi);
    }
}

fn ident_run_end_exec(s: &[char], i: usize, hi: usize) -> (r: usize)
    requires
        i <= hi <= s@.len(),
    ensures
        r as int == ident_run_end(s@, i as int, hi as int),
{
    let mut j = i;
    while j < hi && is_ident(s[j])
        invariant
            i <= j <= hi <= s@.len(),
            ident_run_end(s@, j as int, hi as int) == ident_run_end(s@, i as int, hi as int),
        decreases hi - j,
    {
        j = j + 1;
    }
    j
}

pub(crate) fn skip_ws_front_exec(s: &[char], lo: usize, hi: usize) -> (r: usize)
    requires
        lo <= hi <= s@.len(),
    ensures
        r as int == skip_ws_front(s@, lo as int, hi as int),
        lo <= r <= hi,
{
    let mut a = lo;
    while a < hi && white_space(s[a])
        invariant
            lo <= a <= hi <= s@.len(),
            skip_ws_front(s@, a as int, hi as int) == skip_ws_front(s@, lo as int, hi as int),
        decreases hi - a,
    {
        a = a + 1;
    }
    proof {
        lemma_skip_ws_bounds(s@, a as int, hi as int);
    }
    a
}

/// Bounds of the identifier that `s[lo..hi]` begins with, after white space.
pub fn ident_prefix_bounds(s: &[char], lo: usize, hi: usize) -> (r: Option<(usize, usize)>)
    requires
        lo <= hi <= s@.len(),
    ensures
        match r {
            Some((a, b)) => ident_prefix_at(s@, lo as int, hi as int) == Some((a as int, b as int)),
            None => ident_prefix_at(s@, lo as int, hi as int) is None,
        },
        r matches Some((a, b)) ==> lo <= a < b <= hi,
{
    let a = skip_ws_front_exec(s, lo, hi);
    let b = ident_run_end_exec(s, a, hi);
    proof {
        lemma_ident_runs(s@, a as int, hi as int);
    }
    if a < b {
        Some((a, b))
    } else {
        None
    }
}

/// Bounds of the last identifier in `s[lo..hi]`.
pub fn ident_suffix_bounds(s: &[char], lo: usize, hi: usize) -> (r: Option<(usize, usize)>)
    requires
        lo <= hi <= s@.len(),
    ensures
        match r {
            Some((a, b)) => ident_suffix_at(s@, lo as int, hi as int) == Some((a as int, b as int)),
            None => ident_suffix_at(s@, lo as int, hi as int) is None,
        },
        r matches Some((a, b)) ==> lo <= a < b <= hi,
{
    let mut e = hi;
    while e > lo && !is_ident(s[e - 1])
        invariant
            lo <= e <= hi <= s@.len(),
            non_ident_back(s@, lo as int, e as int) == non_ident_back(s@, lo as int, hi as int),
        decreases e - lo,
    {
        e = e - 1;
    }
    if e <= lo {
        return None;
    }
    let mut a = e;
    while a > lo && is_ident(s[a - 1])
        invariant
            lo <= a <= e <= hi <= s@.len(),
            non_ident_back(s@, lo as int, hi as int) == e,
            ident_run_start(s@, lo as int, a as int) == ident_run_start(s@, lo as int, e as int),
        decreases a - lo,
    {
        a = a - 1;
    }
    proof {
        lemma_ident_runs(s@, lo as int, e as int);
    }
    Some((a, e))
}

/// Bounds of `s[lo..hi]` as a type with references and `mut` taken off.
pub fn type_prefix(s: &[char], lo: usize, hi: usize) -> (r: (usize, usize))
    requires
        lo <= hi <= s@.len(),
    ensures
        (r.0 as int, r.1 as int) == type_prefix_bounds(s@, lo as int, hi as int),
        lo <= r.0 <= r.1 <= hi,
{
    let (a, b) = trim_range(s, lo, hi);
    let mut amp = a;
    while amp < b && s[amp] == '&'
        invariant
            a <= amp <= b <= s@.len(),
            skip_char_front(s@, '&', amp as int, b as int) == skip_char_front(s@, '&', a as int, b as int),
        decreases b - amp,
    {
        amp = amp + 1;
    }
    let c = skip_ws_front_exec(s, amp, b);
    let mut_word = ['m', 'u', 't'];
    proof {
        assert(mut_word@ == "mut"@) by {
            reveal_strlit("mut");
        }
    }
    if starts_with_at_exec(s, mut_word.as_slice(), c, b) && c + 3 < b && white_space(s[c + 3]) {
        let d = skip_ws_front_exec(s, c + 3, b);
        (d, b)
    } else {
        (c, b)
    }
}

/// A parameter of the function that a capability list belongs to: its name and,
/// where the type begins with one, the type's leading identifier.
#[derive(Debug)]
pub struct CapabilityParam {
    pub name: String,
    pub ty: Option<String>,
}

/// What a parameter is, as text.
pub struct CapabilityParamView {
    pub name: Seq<char>,
    pub ty: Option<Seq<char>>,
}

impl View for CapabilityParam {
    type V = CapabilityParamView;

    open spec fn view(&self) -> CapabilityParamView {
        CapabilityParamView {
            name: self.name@,
            ty: match self.ty {
                Some(t) => Some(t@),
                None => None,
            },
        }
    }
}

pub open spec fn param_views(v: Seq<CapabilityParam>) -> Seq<CapabilityParamView> {
    v.map_values(|p: CapabilityParam| p@)
}

/// The text of `s[a..b]` for bounds that may be missing.
pub open spec fn bounded_text(s: Seq<char>, r: Option<(int, int)>) -> Option<Seq<char>> {
    match r {
        Some((a, b)) => Some(s.subrange(a, b)),
        None => None,
    }
}

/// The parameter that the piece `s[lo..hi]` of a parameter list declares, if
/// any: the piece is split at its first `:`, the name is the last identifier
/// before it and the type is read after it.
pub open spec fn param_of(s: Seq<char>, lo: int, hi: int) -> Option<CapabilityParamView> {
    let c = char_index(s, ':', lo, hi);
    if c >= hi {
        None
    } else {
        match ident_suffix_at(s, lo, c) {
            None => None,
            Some((a, b)) => {
                let (t0, t1) = type_prefix_bounds(s, c + 1, hi);
                Some(
                    CapabilityParamView {
                        name: s.subrange(a, b),
                        ty: bounded_text(s, ident_prefix_at(s, t0, t1)),
                    },
                )
            },
        }
    }
}

/// The parameters declared by the comma-separated pieces of `s[lo..hi]`, in order.
pub open spec fn params_from(s: Seq<char>, lo: int, hi: int) -> Seq<CapabilityParamView>
    decreases hi - lo via params_from_decreases
{
    if lo < 0 || lo > hi || hi > s.len() {
        Seq::empty()
    } else {
        let p = char_index(s, ',', lo, hi);
        let rest = if p < hi { params_from(s, p + 1, hi) } else { Seq::empty() };
        match param_of(s, lo, p) {
            Some(param) => seq![param] + rest,
            None => rest,
        }
    }
}

#[via_fn]
proof fn params_from_decreases(s: Seq<char>, lo: int, hi: int) {
    if !(lo < 0 || lo > hi || hi > s.len()) {
        lemma_char_index(s, ',', lo, hi);
    }
}

pub(crate) fn copy_text(s: &[char], lo: usize, hi: usize) -> (r: String)
    requires
        lo <= hi <= s@.len(),
    ensures
        r@ == s@.subrange(lo as int, hi as int),
{
    let piece = copy_range(s, lo, hi);
    string_from_chars(piece.as_slice())
}

fn copy_bounded(s: &[char], r: Option<(usize, usize)>) -> (t: Option<String>)
    requires
        r matches Some((a, b)) ==> a <= b <= s@.len(),
    ensures
        match t {
            Some(x) => r matches Some((a, b)) && x@ == s@.subrange(a as int, b as int),
            None => r is None,
        },
{
    match r {
        Some((a, b)) => Some(copy_text(s, a, b)),
        None => None,
    }
}

fn param_in(s: &[char], lo: usize, hi: usize) -> (r: Option<CapabilityParam>)
    requires
        lo <= hi <= s@.len(),
    ensures
        match r {
            Some(p) => param_of(s@, lo as int, hi as int) == Some(p@),
            None => param_of(s@, lo as int, hi as int) is None,
        },
{
    proof {
        lemma_char_index(s@, ':', lo as int, hi as int);
    }
    let c = find_char(s, ':', lo, hi);
    if c >= hi {
        return None;
    }
    match ident_suffix_bounds(s, lo, c) {
        None => None,
        Some((a, b)) => {
            let name = copy_text(s, a, b);
            let (t0, t1) = type_prefix(s, c + 1, hi);
            let ty_bounds = ident_prefix_bounds(s, t0, t1);
            let ty = copy_bounded(s, ty_bounds);
            let param = CapabilityParam { name, ty };
            proof {
                assert(param@.ty == bounded_text(s@, ident_prefix_at(s@, t0 as int, t1 as int)));
            }
            Some(param)
        },
    }
}

fn params_in(s: &[char], lo: usize, hi: usize) -> (r: Vec<CapabilityParam>)
    requires
        lo <= hi <= s@.len(),
    ensures
        param_views(r@) == params_from(s@, lo as int, hi as int),
    decreases hi - lo,
{
    proof {
        lemma_char_index(s@, ',', lo as int, hi as int);
    }
    let p = find_char(s, ',', lo, hi);
    let head = param_in(s, lo, p);
    let rest = if p < hi { params_in(s, p + 1, hi) } else { Vec::new() };
    match head {
        Some(param) => {
            let mut out = rest;
            let ghost tail = out@;
            out.insert(0, param);
            proof {
                assert(out@ =~= seq![param].add(tail));
                assert(param_views(out@) =~= seq![param@] + param_views(tail));
            }
            out
        },
        None => {
            proof {
                if p >= hi {
                    assert(param_views(rest@) =~= Seq::<CapabilityParamView>::empty());
                }
            }
            rest
        },
    }
}

/// The parameters declared in the text of a parameter list, in order; a piece
/// without a `:` or without an identifier before it declares none.
pub fn capability_params(args: &str) -> (r: Vec<CapabilityParam>)
    ensures
        param_views(r@) == params_from(args@, 0, args@.len() as int),
{
    let s = chars_of(args);
    params_in(s.as_slice(), 0, s.len())
}

/// The identifier that `input` begins with after leading white space.
pub fn ident_prefix(input: &str) -> (r: Option<String>)
    ensures
        match r {
            Some(t) => bounded_text(input@, ident_prefix_at(input@, 0, input@.len() as int)) == Some(t@),
            None => ident_prefix_at(input@, 0, input@.len() as int) is None,
        },
{
    let s = chars_of(input);
    let b = ident_prefix_bounds(s.as_slice(), 0, s.len());
    copy_bounded(s.as_slice(), b)
}

/// The last identifier in `input`.
pub fn ident_suffix(input: &str) -> (r: Option<String>)
    ensures
        match r {
            Some(t) => bounded_text(input@, ident_suffix_at(input@, 0, input@.len() as int)) == Some(t@),
            None => ident_suffix_at(input@, 0, input@.len() as int) is None,
        },
{
    let s = chars_of(input);
    let b = ident_suffix_bounds(s.as_slice(), 0, s.len());
    copy_bounded(s.as_slice(), b)
}

/// `ty` without surrounding white space, leading `&`s and a leading `mut `.
pub fn normalize_type_prefix(ty: &str) -> (r: String)
    ensures
        r@ == ty@.subrange(type_prefix_bounds(ty@, 0, ty@.len() as int).0,
            type_prefix_bounds(ty@, 0, ty@.len() as int).1),
{
    let s = chars_of(ty);
    let (a, b) = type_prefix(s.as_slice(), 0, s.len());
    copy_text(s.as_slice(), a, b)
}

/// The last start `i <= from` at which `needle` occurs in `hay`.
pub open spec fn last_match_from(hay: Seq<char>, needle: Seq<char>, from: int) -> Option<int>
    decreases from + 1,
{
    if from < 0 {
        None
    } else if matches_at(hay, needle, from) {
        Some(from)
    } else {
        last_match_from(hay, needle, from - 1)
    }
}

pub proof fn lemma_last_match_from(hay: Seq<char>, needle: Seq<char>, from: int)
    ensures
        last_match_from(hay, needle, from) matches Some(i) ==> 0 <= i <= from && matches_at(hay, needle, i),
    decreases from + 1,
{
    if from >= 0 && !matches_at(hay, needle, from) {
        lemma_last_match_from(hay, needle, from - 1);
    }
}

/// The last occurrence of `needle` that ends at or before `hi` (`str::rfind` on `hay[..hi]`).
pub fn rfind_text(hay: &[char], needle: &[char], hi: usize) -> (r: Option<usize>)
    requires
        hi <= hay@.len(),
    ensures
        opt_index(r) == last_match_from(hay@, needle@, hi - needle@.len()),
{
    if needle.len() > hi {
        return None;
    }
    let mut i = hi - needle.len();
    loop
        invariant
            i + needle@.len() <= hi <= hay@.len(),
            last_match_from(hay@, needle@, i as int) == last_match_from(
                hay@,
                needle@,
                hi - needle@.len(),
            ),
        decreases i,
    {
        if crate::text::matches_at_exec(hay, needle, i) {
            return Some(i);
        }
        if i == 0 {
            assert(last_match_from(hay@, needle@, -1) is None);
            return None;
        }
        i = i - 1;
    }
}

/// Where a parameter list that begins at `s[p]` ends: at the last `)` before
/// `u`, or at `u` where there is none.
pub open spec fn args_end(s: Seq<char>, u: int) -> int {
    match char_rindex(s, ')', 0, u) {
        Some(x) => x,
        None => u,
    }
}

/// The start of the last `fn ` before `u`.
pub open spec fn fn_keyword_before(s: Seq<char>, u: int) -> Option<int> {
    last_match_from(s, "fn "@, u - 3)
}

/// The inputs on which reading the context takes a parameter list whose end lies
/// before its start: the last `)` before the capability list stands before the
/// first `(` after the function's name.
pub open spec fn capability_context_sliceable(s: Seq<char>, u: int) -> bool {
    match fn_keyword_before(s, u) {
        Some(f) => (ident_prefix_at(s, f + 3, s.len() as int) is Some && char_index(s, '(', f, u) < u)
            ==> char_index(s, '(', f, u) + 1 <= args_end(s, u),
        None => true,
    }
}

/// The function that a capability list at `u` belongs to: its name, the owner
/// that fields without one refer to (the last parameter) and its parameters.
pub open spec fn capability_context_at(s: Seq<char>, u: int) -> Option<
    (Seq<char>, Option<Seq<char>>, Seq<CapabilityParamView>),
> {
    match fn_keyword_before(s, u) {
        None => None,
        Some(f) => match ident_prefix_at(s, f + 3, s.len() as int) {
            None => None,
            Some((a, b)) => {
                let p = char_index(s, '(', f, u);
                if p >= u {
                    None
                } else {
                    let params = params_from(s, p + 1, args_end(s, u));
                    Some(
                        (
                            s.subrange(a, b),
                            if params.len() > 0 { Some(params.last().name) } else { None },
                            params,
                        ),
                    )
                }
            },
        },
    }
}

/// The function, default owner and parameters for the capability list that
/// starts at character `using_start` of `source`.
pub fn capability_context(source: &[char], using_start: usize) -> (r: Option<
    (String, Option<String>, Vec<CapabilityParam>),
>)
    requires
        using_start <= source@.len(),
        capability_context_sliceable(source@, using_start as int),
    ensures
        match r {
            Some((function, owner, params)) => capability_context_at(source@, using_start as int)
                == Some(
                (
                    function@,
                    match owner {
                        Some(o) => Some(o@),
                        None => None,
                    },
                    param_views(params@),
                ),
            ),
            None => capability_context_at(source@, using_start as int) is None,
        },
{
    let fn_word = ['f', 'n', ' '];
    proof {
        assert(fn_word@ == "fn "@) by {
            reveal_strlit("fn ");
        }
    }
    let fn_start = match rfind_text(source, fn_word.as_slice(), using_start) {
        Some(f) => f,
        None => return None,
    };
    proof {
        lemma_last_match_from(source@, "fn "@, using_start - 3);
    }
    let (a, b) = match ident_prefix_bounds(source, fn_start + 3, source.len()) {
        Some(bounds) => bounds,
        None => return None,
    };
    proof {
        lemma_char_index(source@, '(', fn_start as int, using_start as int);
        lemma_char_rindex(source@, ')', 0, using_start as int);
    }
    let p = find_char(source, '(', fn_start, using_start);
    if p >= using_start {
        return None;
    }
    let args_end = match rfind_char(source, ')', 0, using_start) {
        Some(x) => x,
        None => using_start,
    };
    let function = copy_text(source, a, b);
    let params = params_in(source, p + 1, args_end);
    let owner = if params.len() > 0 {
        Some(params[params.len() - 1].name.clone())
    } else {
        None
    };
    proof {
        if params@.len() > 0 {
            assert(param_views(params@).last() == params@.last()@);
        }
    }
    Some((function, owner, params))
}

} // verus!
