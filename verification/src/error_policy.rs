//! Rewrites of generated Rust source for the `explicit` and `typed` error
//! policies: evidence comments for each error site, or a typed error enum with
//! `map_err` conversions inserted at the sites.
use vstd::prelude::*;
use crate::errors::joined;
use crate::source_spans::{byte_boundary, chars_before_byte, char_at_byte};
use crate::strings::{chars_of, decimal_text, push_decimal, string_from_chars};
use crate::text::{contains_seq, copy_range, find_in, first_match, lemma_first_match, push_all,
    str_contains, str_equals, utf8_len};

verus! {

/// A place in generated source where an I/O error surfaces.
#[derive(Debug)]
pub struct ErrorPolicySite {
    pub line: usize,
    pub operation: String,
    pub source_error: String,
    pub variant: String,
    pub generated_offset: usize,
}

/// `s[lo..]` with every occurrence of `pattern`, found left to right without
/// overlap, replaced by `replacement` (`str::replace`).
pub open spec fn replaced_from(s: Seq<char>, pattern: Seq<char>, replacement: Seq<char>, lo: int) -> Seq<char>
    decreases s.len() - lo,
{
    if lo < 0 || lo > s.len() || pattern.len() == 0 {
        s.subrange(if 0 <= lo <= s.len() { lo } else { 0 }, s.len() as int)
    } else {
        match first_match(s, pattern, lo, s.len() as int) {
            Some(m) => {
                proof {
                    lemma_first_match(s, pattern, lo, s.len() as int);
                }
                s.subrange(lo, m) + replacement + replaced_from(s, pattern, replacement, m + pattern.len())
            },
            None => s.subrange(lo, s.len() as int),
        }
    }
}

/// Replaces every occurrence of a non-empty `pattern` in `s`.
pub fn replace_all(s: &str, pattern: &str, replacement: &str) -> (r: String)
    requires
        pattern@.len() > 0,
    ensures
        r@ == replaced_from(s@, pattern@, replacement@, 0),
{
    let cs = chars_of(s);
    let ps = chars_of(pattern);
    let rs = chars_of(replacement);
    let n = cs.len();
    let mut out: Vec<char> = Vec::new();
    let mut lo: usize = 0;
    loop
        invariant_except_break
            out@ + replaced_from(cs@, ps@, rs@, lo as int) == replaced_from(cs@, ps@, rs@, 0),
        invariant
            lo <= n,
            n == cs@.len(),
            cs@ == s@,
            ps@ == pattern@,
            rs@ == replacement@,
            ps@.len() > 0,
        ensures
            out@ == replaced_from(cs@, ps@, rs@, 0),
        decreases n - lo,
    {
        proof {
            lemma_first_match(cs@, ps@, lo as int, n as int);
        }
        let ghost before = out@;
        match find_in(cs.as_slice(), ps.as_slice(), lo, n) {
            Some(m) => {
                let ghost rest = replaced_from(cs@, ps@, rs@, m + ps@.len());
                crate::text::push_range(&mut out, cs.as_slice(), lo, m);
                push_all(&mut out, rs.as_slice());
                proof {
                    assert(out@ + rest =~= before + (cs@.subrange(lo as int, m as int) + rs@ + rest));
                }
                lo = m + ps.len();
            },
            None => {
                crate::text::push_range(&mut out, cs.as_slice(), lo, n);
                break;
            },
        }
    }
    string_from_chars(out.as_slice())
}

/// The comment lines of the explicit policy: a header, then one line per
/// error site with its line, operation and source error.
pub open spec fn site_comments(sites: Seq<ErrorPolicySite>) -> Seq<char>
    decreases sites.len(),
{
    if sites.len() == 0 {
        Seq::empty()
    } else {
        site_comments(sites.drop_last()) + "// kobo: error_site line "@ + decimal_text(sites.last().line as nat)
            + " operation "@ + sites.last().operation@ + " source "@ + sites.last().source_error@ + "\n"@
    }
}

/// Generated source under the explicit error policy: the source, ending in a
/// newline, followed by evidence comments for the error sites.
pub open spec fn explicit_policy_text(source: Seq<char>, sites: Seq<ErrorPolicySite>) -> Seq<char> {
    (if source.len() > 0 && source.last() == '\n' { source } else { source.push('\n') })
        + "// kobo: explicit error policy evidence required\n"@ + site_comments(sites)
}

/// Appends the explicit policy's evidence comments to generated source.
pub fn explicit_error_policy_source(source: &str, error_sites: &[ErrorPolicySite]) -> (output: String)
    ensures
        output@ == explicit_policy_text(source@, error_sites@),
{
    let chars = chars_of(source);
    let mut output = crate::config::owned(source);
    if chars.len() == 0 || chars[chars.len() - 1] != '\n' {
        crate::strings::push_char(&mut output, '\n');
    }
    output.append("// kobo: explicit error policy evidence required\n");
    let ghost base = output@;
    let mut i: usize = 0;
    proof {
        assert(error_sites@.take(0) =~= Seq::<ErrorPolicySite>::empty());
    }
    while i < error_sites.len()
        invariant
            i <= error_sites@.len(),
            output@ == base + site_comments(error_sites@.take(i as int)),
        decreases error_sites@.len() - i,
    {
        let site = &error_sites[i];
        output.append("// kobo: error_site line ");
        push_decimal(&mut output, site.line as u64);
        output.append(" operation ");
        output.append(site.operation.as_str());
        output.append(" source ");
        output.append(site.source_error.as_str());
        output.append("\n");
        proof {
            assert(error_sites@.take(i + 1).drop_last() =~= error_sites@.take(i as int));
            assert(error_sites@.take(i + 1).last() == *site);
            assert(output@ =~= base + site_comments(error_sites@.take(i + 1)));
        }
        i = i + 1;
    }
    proof {
        assert(error_sites@.take(i as int) =~= error_sites@);
    }
    output
}

/// The byte offset of the first character from index `k` on.
pub open spec fn offset_of(s: Seq<char>, k: int) -> int {
    utf8_len(s.take(k)) as int
}

/// The source with `.map_err(KoboTypedError::<variant>)` inserted at the
/// offsets of the sites from index `i` on, each site used when its offset
/// lies within the source and not before the previous insertion point.
pub open spec fn typed_maps_from(s: Seq<char>, sites: Seq<ErrorPolicySite>, i: int, cursor: int) -> Seq<char>
    decreases sites.len() - i,
{
    if i < 0 || i >= sites.len() {
        s.subrange(cursor, s.len() as int)
    } else {
        let off = sites[i].generated_offset as int;
        if off > utf8_len(s) || off < offset_of(s, cursor) {
            typed_maps_from(s, sites, i + 1, cursor)
        } else {
            let k = chars_before_byte(s, off);
            s.subrange(cursor, k) + ".map_err(KoboTypedError::"@ + sites[i].variant@ + ")"@
                + typed_maps_from(s, sites, i + 1, k)
        }
    }
}

/// The sites from index `i` on that the insertion uses fall on character
/// boundaries.
pub open spec fn used_sites_on_boundaries(s: Seq<char>, sites: Seq<ErrorPolicySite>, i: int, cursor: int) -> bool
    decreases sites.len() - i,
{
    if i < 0 || i >= sites.len() {
        true
    } else {
        let off = sites[i].generated_offset as int;
        if off > utf8_len(s) || off < offset_of(s, cursor) {
            used_sites_on_boundaries(s, sites, i + 1, cursor)
        } else {
            byte_boundary(s, off) && used_sites_on_boundaries(s, sites, i + 1, chars_before_byte(s, off))
        }
    }
}

/// Inserts `.map_err(KoboTypedError::<variant>)` at each used site's offset.
pub fn insert_typed_error_maps(source: &str, error_sites: &[ErrorPolicySite]) -> (output: String)
    requires
        utf8_len(source@) <= usize::MAX,
        used_sites_on_boundaries(source@, error_sites@, 0, 0),
    ensures
        output@ == typed_maps_from(source@, error_sites@, 0, 0),
{
    let s = chars_of(source);
    let n = s.len();
    proof {
        assert(s@.subrange(0, n as int) =~= s@);
        assert(s@.take(0) =~= Seq::<char>::empty());
    }
    let total = crate::text::utf8_len_range(s.as_slice(), 0, n);
    if error_sites.len() == 0 {
        return crate::config::owned(source);
    }
    let mut out: Vec<char> = Vec::new();
    let mut cursor: usize = 0;
    let mut cursor_byte: usize = 0;
    let mut i: usize = 0;
    while i < error_sites.len()
        invariant
            n == s@.len(),
            s@ == source@,
            total == utf8_len(s@),
            cursor <= n,
            cursor_byte as int == offset_of(s@, cursor as int),
            i <= error_sites@.len(),
            used_sites_on_boundaries(s@, error_sites@, i as int, cursor as int),
            out@ + typed_maps_from(s@, error_sites@, i as int, cursor as int) == typed_maps_from(s@, error_sites@, 0, 0),
        decreases error_sites@.len() - i,
    {
        let site = &error_sites[i];
        let off = site.generated_offset;
        if off > total || off < cursor_byte {
            i = i + 1;
            continue;
        }
        let k = char_at_byte(s.as_slice(), off);
        let ghost before = out@;
        let ghost rest = typed_maps_from(s@, error_sites@, i + 1, k as int);
        proof {
            assert(cursor <= k) by {
                if k < cursor {
                    crate::source_spans::lemma_prefix_bytes_grow(s@, k as int, cursor as int);
                }
            }
        }
        crate::text::push_range(&mut out, s.as_slice(), cursor, k);
        let prefix = chars_of(".map_err(KoboTypedError::");
        push_all(&mut out, prefix.as_slice());
        let variant = chars_of(site.variant.as_str());
        push_all(&mut out, variant.as_slice());
        out.push(')');
        proof {
            reveal_strlit(")");
            assert(out@ + rest =~= before + (s@.subrange(cursor as int, k as int) + ".map_err(KoboTypedError::"@
                + site.variant@ + ")"@ + rest));
        }
        cursor = k;
        cursor_byte = off;
        i = i + 1;
    }
    crate::text::push_range(&mut out, s.as_slice(), cursor, n);
    string_from_chars(out.as_slice())
}

/// The variants of the typed error enum: `Io` first, then the first site of
/// each new variant name, as (variant, operation, source error).
pub open spec fn typed_variants(sites: Seq<ErrorPolicySite>) -> Seq<(Seq<char>, Seq<char>, Seq<char>)>
    decreases sites.len(),
{
    if sites.len() == 0 {
        seq![("Io"@, "io"@, "std::io::Error"@)]
    } else {
        let prev = typed_variants(sites.drop_last());
        let site = sites.last();
        if exists|j: int| 0 <= j < prev.len() && (#[trigger] prev[j]).0 == site.variant@ {
            prev
        } else {
            prev.push((site.variant@, site.operation@, site.source_error@))
        }
    }
}

/// The enum declaration line of a variant.
pub open spec fn declaration_line(v: (Seq<char>, Seq<char>, Seq<char>)) -> Seq<char> {
    "    "@ + v.0 + "("@ + v.2 + "),"@
}

/// The `Display` match arm of a variant.
pub open spec fn display_arm(v: (Seq<char>, Seq<char>, Seq<char>)) -> Seq<char> {
    "            Self::"@ + v.0 + "(error) => write!(f, \""@ + v.1 + " failed: {error}\"),"@
}

/// Generated source under the typed error policy: unchanged without error
/// sites or where it already declares `KoboTypedError`; otherwise the enum
/// with its `Display`, `Error` and `From<std::io::Error>` impls, followed by
/// the source with conversions inserted and `std::io::Error` replaced.
pub open spec fn typed_policy_text(source: Seq<char>, sites: Seq<ErrorPolicySite>) -> Seq<char> {
    if sites.len() == 0 || contains_seq(source, "enum KoboTypedError"@) {
        source
    } else {
        let variants = typed_variants(sites);
        let declarations = joined(variants.map_values(|v: (Seq<char>, Seq<char>, Seq<char>)| declaration_line(v)), "\n"@);
        let arms = joined(variants.map_values(|v: (Seq<char>, Seq<char>, Seq<char>)| display_arm(v)), "\n"@);
        let rewritten = replaced_from(typed_maps_from(source, sites, 0, 0), "std::io::Error"@, "KoboTypedError"@, 0);
        "#[derive(Debug)]\n#[allow(dead_code)]\nenum KoboTypedError {\n"@ + declarations
            + "\n}\n\nimpl std::fmt::Display for KoboTypedError {\n    fn fmt(&self, f: &mut std::fmt::Formatter<'_>) -> std::fmt::Result {\n        match self {\n"@
            + arms
            + "\n        }\n    }\n}\n\nimpl std::error::Error for KoboTypedError {}\n\nimpl From<std::io::Error> for KoboTypedError {\n    fn from(error: std::io::Error) -> Self {\n        Self::Io(error)\n    }\n}\n\n"@
            + rewritten
    }
}

/// Rewriting for the typed error policy is idempotent: where there are
/// error sites, the rewritten source holds the `KoboTypedError` enum, and a
/// second rewrite leaves any rewritten source as it is.
pub proof fn lemma_typed_policy_idempotent(source: Seq<char>, sites: Seq<ErrorPolicySite>)
    ensures
        sites.len() > 0 ==> contains_seq(typed_policy_text(source, sites), "enum KoboTypedError"@),
        typed_policy_text(typed_policy_text(source, sites), sites) == typed_policy_text(source, sites),
{
    let t = typed_policy_text(source, sites);
    if sites.len() > 0 && !contains_seq(source, "enum KoboTypedError"@) {
        let head = "#[derive(Debug)]\n#[allow(dead_code)]\nenum KoboTypedError {\n"@;
        let needle = "enum KoboTypedError"@;
        reveal_strlit("#[derive(Debug)]\n#[allow(dead_code)]\nenum KoboTypedError {\n");
        reveal_strlit("enum KoboTypedError");
        let rest = t.subrange(head.len() as int, t.len() as int);
        assert(t =~= head + rest);
        assert(t.subrange(37, 37 + needle.len() as int) =~= needle);
        assert(crate::text::matches_at(t, needle, 37));
    }
}

fn push_joined_lines(out: &mut String, lines: &Vec<String>)
    ensures
        final(out)@ == old(out)@ + joined(lines@.map_values(|l: String| l@), "\n"@),
{
    let ghost start = out@;
    let mut i: usize = 0;
    proof {
        assert(lines@.take(0).map_values(|l: String| l@) =~= Seq::<Seq<char>>::empty());
    }
    while i < lines.len()
        invariant
            i <= lines@.len(),
            out@ == start + joined(lines@.take(i as int).map_values(|l: String| l@), "\n"@),
        decreases lines@.len() - i,
    {
        if i > 0 {
            out.append("\n");
        }
        out.append(lines[i].as_str());
        proof {
            let parts = lines@.take(i + 1).map_values(|l: String| l@);
            assert(parts.drop_last() =~= lines@.take(i as int).map_values(|l: String| l@));
            assert(parts.last() == lines@[i as int]@);
            if i == 0 {
                assert(parts.len() == 1);
            }
        }
        i = i + 1;
    }
    proof {
        assert(lines@.take(i as int) =~= lines@);
    }
}

/// Rewrites generated source for the typed error policy.
pub fn typed_error_policy_source(source: &str, error_sites: &[ErrorPolicySite]) -> (output: String)
    requires
        utf8_len(source@) <= usize::MAX,
        error_sites@.len() == 0 || contains_seq(source@, "enum KoboTypedError"@)
            || used_sites_on_boundaries(source@, error_sites@, 0, 0),
    ensures
        output@ == typed_policy_text(source@, error_sites@),
{
    if error_sites.len() == 0 {
        return crate::config::owned(source);
    }
    if str_contains(source, "enum KoboTypedError") {
        return crate::config::owned(source);
    }
    let inserted = insert_typed_error_maps(source, error_sites);
    proof {
        reveal_strlit("std::io::Error");
    }
    let rewritten = replace_all(inserted.as_str(), "std::io::Error", "KoboTypedError");
    let mut names: Vec<String> = Vec::new();
    let mut operations: Vec<String> = Vec::new();
    let mut errors: Vec<String> = Vec::new();
    names.push(crate::config::owned("Io"));
    operations.push(crate::config::owned("io"));
    errors.push(crate::config::owned("std::io::Error"));
    let mut i: usize = 0;
    proof {
        assert(error_sites@.take(0) =~= Seq::<ErrorPolicySite>::empty());
    }
    while i < error_sites.len()
        invariant
            i <= error_sites@.len(),
            names@.len() == operations@.len(),
            names@.len() == errors@.len(),
            names@.len() == typed_variants(error_sites@.take(i as int)).len(),
            forall|j: int| 0 <= j < names@.len() ==> typed_variants(error_sites@.take(i as int))[j]
                == ((#[trigger] names@[j])@, operations@[j]@, errors@[j]@),
        decreases error_sites@.len() - i,
    {
        let site = &error_sites[i];
        let ghost prev = typed_variants(error_sites@.take(i as int));
        proof {
            assert(error_sites@.take(i + 1).drop_last() =~= error_sites@.take(i as int));
            assert(error_sites@.take(i + 1).last() == *site);
        }
        let mut found = false;
        let mut j: usize = 0;
        while j < names.len()
            invariant
                j <= names@.len(),
                names@.len() == prev.len(),
                forall|q: int| 0 <= q < names@.len() ==> prev[q] == ((#[trigger] names@[q])@, operations@[q]@, errors@[q]@),
                found == exists|q: int| 0 <= q < j && (#[trigger] prev[q]).0 == site.variant@,
            decreases names@.len() - j,
        {
            if str_equals(names[j].as_str(), site.variant.as_str()) {
                found = true;
            }
            proof {
                assert(prev[j as int].0 == names@[j as int]@);
                if found && !(exists|q: int| 0 <= q < j && (#[trigger] prev[q]).0 == site.variant@) {
                    assert(prev[j as int].0 == site.variant@);
                }
            }
            j = j + 1;
        }
        if !found {
            let ghost n0 = names@;
            let ghost o0 = operations@;
            let ghost e0 = errors@;
            names.push(site.variant.clone());
            operations.push(site.operation.clone());
            errors.push(site.source_error.clone());
            proof {
                assert forall|q: int| 0 <= q < names@.len() implies typed_variants(error_sites@.take(i + 1))[q]
                    == ((#[trigger] names@[q])@, operations@[q]@, errors@[q]@) by {
                    if q < n0.len() {
                        assert(names@[q] == n0[q]);
                        assert(operations@[q] == o0[q]);
                        assert(errors@[q] == e0[q]);
                    }
                }
            }
        }
        i = i + 1;
    }
    proof {
        assert(error_sites@.take(i as int) =~= error_sites@);
    }
    let ghost variants = typed_variants(error_sites@);
    let mut declarations: Vec<String> = Vec::new();
    let mut arms: Vec<String> = Vec::new();
    let mut k: usize = 0;
    while k < names.len()
        invariant
            k <= names@.len(),
            names@.len() == operations@.len(),
            names@.len() == errors@.len(),
            names@.len() == variants.len(),
            forall|j: int| 0 <= j < names@.len() ==> variants[j] == ((#[trigger] names@[j])@, operations@[j]@, errors@[j]@),
            declarations@.map_values(|l: String| l@) == variants.take(k as int).map_values(|v: (Seq<char>, Seq<char>, Seq<char>)| declaration_line(v)),
            arms@.map_values(|l: String| l@) == variants.take(k as int).map_values(|v: (Seq<char>, Seq<char>, Seq<char>)| display_arm(v)),
        decreases names@.len() - k,
    {
        let mut line = crate::config::owned("    ");
        line.append(names[k].as_str());
        line.append("(");
        line.append(errors[k].as_str());
        line.append("),");
        let mut arm = crate::config::owned("            Self::");
        arm.append(names[k].as_str());
        arm.append("(error) => write!(f, \"");
        arm.append(operations[k].as_str());
        arm.append(" failed: {error}\"),");
        let ghost d0 = declarations@;
        let ghost a0 = arms@;
        declarations.push(line);
        arms.push(arm);
        proof {
            assert(variants[k as int] == (names@[k as int]@, operations@[k as int]@, errors@[k as int]@));
            assert(variants.take(k + 1) =~= variants.take(k as int).push(variants[k as int]));
            assert(declarations@.map_values(|l: String| l@) =~= d0.map_values(|l: String| l@).push(line@));
            assert(arms@.map_values(|l: String| l@) =~= a0.map_values(|l: String| l@).push(arm@));
        }
        k = k + 1;
    }
    proof {
        assert(variants.take(k as int) =~= variants);
    }
    let mut output = crate::config::owned("#[derive(Debug)]\n#[allow(dead_code)]\nenum KoboTypedError {\n");
    push_joined_lines(&mut output, &declarations);
    output.append("\n}\n\nimpl std::fmt::Display for KoboTypedError {\n    fn fmt(&self, f: &mut std::fmt::Formatter<'_>) -> std::fmt::Result {\n        match self {\n");
    push_joined_lines(&mut output, &arms);
    output.append("\n        }\n    }\n}\n\nimpl std::error::Error for KoboTypedError {}\n\nimpl From<std::io::Error> for KoboTypedError {\n    fn from(error: std::io::Error) -> Self {\n        Self::Io(error)\n    }\n}\n\n");
    output.append(rewritten.as_str());
    output
}

} // verus!
