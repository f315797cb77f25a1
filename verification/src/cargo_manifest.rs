//! The `Cargo.toml` of a generated project: its package, an empty workspace,
//! and each dependency section that has entries, with the entries sorted by
//! name.
use vstd::prelude::*;
use crate::config::owned;
use crate::strings::push_char;
use crate::text::{contains_seq, lemma_contains_extend, lemma_contains_self, lemma_seq_less_irreflexive, lemma_seq_less_total, lemma_seq_less_transitive, seq_less, str_less};

verus! {

/// The value of a dependency: a version requirement, or any other TOML value
/// as the text it is written as.
#[derive(Debug)]
pub enum DependencyValue {
    Version(String),
    Other(String),
}

/// One dependency of a section: its name and value.
#[derive(Debug)]
pub struct DependencyEntry {
    pub name: String,
    pub value: DependencyValue,
}

/// The dependency sections of one target platform.
#[derive(Debug)]
pub struct TargetDependencies {
    pub target: String,
    pub dependencies: Vec<DependencyEntry>,
    pub build_dependencies: Vec<DependencyEntry>,
    pub dev_dependencies: Vec<DependencyEntry>,
}

/// What the manifest of a generated project is made from.
#[derive(Debug)]
pub struct GeneratedManifest {
    pub package_name: String,
    pub package_version: String,
    /// The project's build script, where it has one.
    pub build_script: Option<String>,
    pub workspace_dependencies: Vec<DependencyEntry>,
    pub dependencies: Vec<DependencyEntry>,
    pub build_dependencies: Vec<DependencyEntry>,
    pub dev_dependencies: Vec<DependencyEntry>,
    pub target_dependencies: Vec<TargetDependencies>,
}

/// The line of a dependency entry.
pub open spec fn entry_line(e: DependencyEntry) -> Seq<char> {
    match e.value {
        DependencyValue::Version(v) => e.name@ + " = \""@ + v@ + "\"\n"@,
        DependencyValue::Other(t) => e.name@ + " = "@ + t@ + "\n"@,
    }
}

/// The lines of the entries, in order.
pub open spec fn entries_text(es: Seq<DependencyEntry>) -> Seq<char>
    decreases es.len(),
{
    if es.len() == 0 {
        Seq::empty()
    } else {
        entries_text(es.drop_last()) + entry_line(es.last())
    }
}

/// No two entries have the same name.
pub open spec fn distinct_names(es: Seq<DependencyEntry>) -> bool {
    forall|i: int, j: int| 0 <= i < j < es.len() ==> (#[trigger] es[i]).name@ != (#[trigger] es[j]).name@
}

/// Each entry's name sorts strictly before the next one's.
pub open spec fn sorted_by_name(es: Seq<DependencyEntry>) -> bool {
    forall|i: int, j: int| 0 <= i < j < es.len() ==> seq_less((#[trigger] es[i]).name@, (#[trigger] es[j]).name@)
}

/// `es` sorted by name.
pub open spec fn sorted_entries(es: Seq<DependencyEntry>) -> Seq<DependencyEntry> {
    choose|s: Seq<DependencyEntry>| sorted_by_name(s) && s.to_set() == es.to_set()
}

/// A section: nothing where it has no entries, else its header and its
/// entries sorted by name.
pub open spec fn section_text(header: Seq<char>, es: Seq<DependencyEntry>) -> Seq<char> {
    if es.len() == 0 {
        Seq::empty()
    } else {
        "\n["@ + header + "]\n"@ + entries_text(sorted_entries(es))
    }
}

/// `s` with each `"` escaped by a backslash.
pub open spec fn escape_quotes(s: Seq<char>) -> Seq<char>
    decreases s.len(),
{
    if s.len() == 0 {
        Seq::empty()
    } else {
        escape_quotes(s.drop_last()) + if s.last() == '"' { seq!['\\', '"'] } else { seq![s.last()] }
    }
}

/// The sections of a target platform.
pub open spec fn target_text(t: TargetDependencies) -> Seq<char> {
    let head = "target.\""@ + escape_quotes(t.target@) + "\"."@;
    section_text(head + "dependencies"@, t.dependencies@)
        + section_text(head + "build-dependencies"@, t.build_dependencies@)
        + section_text(head + "dev-dependencies"@, t.dev_dependencies@)
}

/// The sections of the first `n` target platforms.
pub open spec fn targets_text(ts: Seq<TargetDependencies>, n: int) -> Seq<char>
    decreases n,
{
    if n <= 0 {
        Seq::empty()
    } else {
        targets_text(ts, n - 1) + target_text(ts[n - 1])
    }
}

/// The manifest: the package (named `kobo_project` and versioned `0.1.0`
/// where those are empty), its build script, an empty workspace, then the
/// workspace, normal, build and dev dependencies and those of each target.
pub open spec fn manifest_text(m: GeneratedManifest) -> Seq<char> {
    let name = if m.package_name@.len() == 0 { "kobo_project"@ } else { m.package_name@ };
    let version = if m.package_version@.len() == 0 { "0.1.0"@ } else { m.package_version@ };
    let build = match m.build_script {
        Some(b) => "build = \""@ + b@ + "\"\n"@,
        None => Seq::empty(),
    };
    "[package]\nname = \""@ + name + "\"\nversion = \""@ + version + "\"\nedition = \"2021\"\n"@ + build
        + "\n[workspace]\n"@
        + section_text("workspace.dependencies"@, m.workspace_dependencies@)
        + section_text("dependencies"@, m.dependencies@)
        + section_text("build-dependencies"@, m.build_dependencies@)
        + section_text("dev-dependencies"@, m.dev_dependencies@)
        + targets_text(m.target_dependencies@, m.target_dependencies@.len() as int)
}

/// Every dependency list of the manifest has distinct names (they come from
/// TOML tables).
pub open spec fn manifest_names_distinct(m: GeneratedManifest) -> bool {
    &&& distinct_names(m.workspace_dependencies@)
    &&& distinct_names(m.dependencies@)
    &&& distinct_names(m.build_dependencies@)
    &&& distinct_names(m.dev_dependencies@)
    &&& forall|k: int| 0 <= k < m.target_dependencies@.len() ==> {
        &&& distinct_names((#[trigger] m.target_dependencies@[k]).dependencies@)
        &&& distinct_names(m.target_dependencies@[k].build_dependencies@)
        &&& distinct_names(m.target_dependencies@[k].dev_dependencies@)
    }
}

proof fn lemma_sorted_unique(a: Seq<DependencyEntry>, b: Seq<DependencyEntry>)
    requires
        sorted_by_name(a),
        sorted_by_name(b),
        a.to_set() == b.to_set(),
    ensures
        a == b,
    decreases a.len(),
{
    if a.len() == 0 {
        if b.len() > 0 {
            assert(b.to_set().contains(b[0]));
        }
        assert(a =~= b);
    } else {
        assert(a.to_set().contains(a[0]));
        assert(b.len() > 0);
        assert(b.to_set().contains(b[0]));
        let k = choose|k: int| 0 <= k < b.len() && b[k] == a[0];
        let m = choose|m: int| 0 <= m < a.len() && a[m] == b[0];
        if k > 0 {
            if m > 0 {
                lemma_seq_less_transitive(a[0].name@, b[0].name@, a[0].name@);
            }
            lemma_seq_less_irreflexive(a[0].name@);
        }
        assert(a[0] == b[0]);
        let a1 = a.drop_first();
        let b1 = b.drop_first();
        assert forall|x: DependencyEntry| a1.to_set().contains(x) <==> b1.to_set().contains(x) by {
            if a1.to_set().contains(x) {
                let i = choose|i: int| 0 <= i < a1.len() && a1[i] == x;
                assert(a[i + 1] == x);
                assert(b.to_set().contains(x));
                let j = choose|j: int| 0 <= j < b.len() && b[j] == x;
                if j == 0 {
                    lemma_seq_less_irreflexive(a[0].name@);
                }
                assert(b1[j - 1] == x);
            }
            if b1.to_set().contains(x) {
                let j = choose|j: int| 0 <= j < b1.len() && b1[j] == x;
                assert(b[j + 1] == x);
                assert(a.to_set().contains(x));
                let i = choose|i: int| 0 <= i < a.len() && a[i] == x;
                if i == 0 {
                    lemma_seq_less_irreflexive(b[0].name@);
                }
                assert(a1[i - 1] == x);
            }
        }
        assert(a1.to_set() =~= b1.to_set());
        lemma_sorted_unique(a1, b1);
        assert(a =~= seq![a[0]] + a1);
        assert(b =~= seq![b[0]] + b1);
    }
}

fn take_entry(e: &DependencyEntry) -> (r: DependencyEntry)
    ensures
        r == *e,
{
    let value = match &e.value {
        DependencyValue::Version(v) => DependencyValue::Version(v.clone()),
        DependencyValue::Other(t) => DependencyValue::Other(t.clone()),
    };
    DependencyEntry { name: e.name.clone(), value: value }
}

/// The entries sorted by name.
fn sort_by_name(es: &Vec<DependencyEntry>) -> (r: Vec<DependencyEntry>)
    requires
        distinct_names(es@),
    ensures
        r@ == sorted_entries(es@),
{
    let mut out: Vec<DependencyEntry> = Vec::new();
    let mut i: usize = 0;
    proof {
        assert(out@.to_set() =~= es@.take(0).to_set());
    }
    while i < es.len()
        invariant
            i <= es@.len(),
            distinct_names(es@),
            sorted_by_name(out@),
            out@.to_set() == es@.take(i as int).to_set(),
            out@.len() == i,
        decreases es@.len() - i,
    {
        let e = take_entry(&es[i]);
        let mut k: usize = 0;
        while k < out.len() && str_less(out[k].name.as_str(), e.name.as_str())
            invariant
                k <= out@.len(),
                forall|j: int| 0 <= j < k ==> seq_less(#[trigger] out@[j].name@, e.name@),
            decreases out@.len() - k,
        {
            k = k + 1;
        }
        let ghost before = out@;
        proof {
            if k < before.len() {
                assert(before.to_set().contains(before[k as int]));
                let p = choose|p: int| 0 <= p < i && es@.take(i as int)[p] == before[k as int];
                assert(es@[p] == before[k as int]);
                assert(es@[i as int] == e);
                assert(before[k as int].name@ != e.name@);
                lemma_seq_less_total(before[k as int].name@, e.name@);
                assert forall|q: int| k <= q < before.len() implies seq_less(e.name@, #[trigger] before[q].name@) by {
                    if q > k {
                        lemma_seq_less_transitive(e.name@, before[k as int].name@, before[q].name@);
                    }
                }
            }
        }
        out.insert(k, e);
        proof {
            let after = out@;
            assert(after =~= before.insert(k as int, es@[i as int]));
            assert forall|a: int, b: int| 0 <= a < b < after.len() implies seq_less((#[trigger] after[a]).name@, (#[trigger] after[b]).name@) by {
                if b < k {
                } else if b == k {
                } else if a < k {
                    lemma_seq_less_transitive(after[a].name@, es@[i as int].name@, after[b].name@);
                } else if a == k {
                } else {
                }
            }
            assert(es@.take(i + 1) =~= es@.take(i as int).push(es@[i as int]));
            assert forall|x: DependencyEntry| after.to_set().contains(x) <==> es@.take(i + 1).to_set().contains(x) by {
                if after.to_set().contains(x) {
                    let q = choose|q: int| 0 <= q < after.len() && after[q] == x;
                    if q < k {
                        assert(before.to_set().contains(x));
                        let p = choose|p: int| 0 <= p < i && es@.take(i as int)[p] == x;
                        assert(es@.take(i + 1)[p] == x);
                    } else if q == k {
                        assert(es@.take(i + 1)[i as int] == x);
                    } else {
                        assert(before[q - 1] == x);
                        assert(before.to_set().contains(x));
                        let p = choose|p: int| 0 <= p < i && es@.take(i as int)[p] == x;
                        assert(es@.take(i + 1)[p] == x);
                    }
                }
                let grown = es@.take(i + 1);
                if grown.to_set().contains(x) {
                    let p = choose|p: int| 0 <= p < grown.len() && grown[p] == x;
                    if p == i {
                        assert(after[k as int] == x);
                    } else {
                        assert(es@.take(i as int)[p] == x);
                        assert(before.to_set().contains(x));
                        let q = choose|q: int| 0 <= q < before.len() && before[q] == x;
                        if q < k {
                            assert(after[q] == x);
                        } else {
                            assert(after[q + 1] == x);
                        }
                    }
                }
            }
            assert(after.to_set() =~= es@.take(i + 1).to_set());
        }
        i = i + 1;
    }
    proof {
        assert(es@.take(i as int) =~= es@);
        let s = sorted_entries(es@);
        assert(sorted_by_name(out@) && out@.to_set() == es@.to_set());
        lemma_sorted_unique(out@, s);
    }
    out
}

fn push_entries(out: &mut String, es: &Vec<DependencyEntry>)
    ensures
        final(out)@ == old(out)@ + entries_text(es@),
{
    let ghost start = out@;
    let mut i: usize = 0;
    proof {
        assert(es@.take(0) =~= Seq::<DependencyEntry>::empty());
        assert(start + entries_text(es@.take(0)) =~= start);
    }
    while i < es.len()
        invariant
            i <= es@.len(),
            out@ == start + entries_text(es@.take(i as int)),
        decreases es@.len() - i,
    {
        let e = &es[i];
        out.append(e.name.as_str());
        match &e.value {
            DependencyValue::Version(v) => {
                out.append(" = \"");
                out.append(v.as_str());
                out.append("\"\n");
            },
            DependencyValue::Other(t) => {
                out.append(" = ");
                out.append(t.as_str());
                out.append("\n");
            },
        }
        proof {
            assert(es@.take(i + 1).drop_last() =~= es@.take(i as int));
            assert(es@.take(i + 1).last() == es@[i as int]);
            assert(out@ =~= start + entries_text(es@.take(i + 1)));
        }
        i = i + 1;
    }
    proof {
        assert(es@.take(i as int) =~= es@);
    }
}

fn push_section(out: &mut String, header: &str, es: &Vec<DependencyEntry>)
    requires
        distinct_names(es@),
    ensures
        final(out)@ == old(out)@ + section_text(header@, es@),
{
    if es.len() == 0 {
        proof {
            assert(old(out)@ + section_text(header@, es@) =~= old(out)@);
        }
        return;
    }
    out.append("\n[");
    out.append(header);
    out.append("]\n");
    let sorted = sort_by_name(es);
    push_entries(out, &sorted);
    proof {
        assert(out@ =~= old(out)@ + section_text(header@, es@));
    }
}

fn escaped_quotes(s: &str) -> (r: String)
    ensures
        r@ == escape_quotes(s@),
{
    let chars = crate::strings::chars_of(s);
    let mut r = String::new();
    let mut i: usize = 0;
    proof {
        assert(s@.take(0) =~= Seq::<char>::empty());
    }
    while i < chars.len()
        invariant
            chars@ == s@,
            i <= chars@.len(),
            r@ == escape_quotes(s@.take(i as int)),
        decreases chars@.len() - i,
    {
        let c = chars[i];
        if c == '"' {
            push_char(&mut r, '\\');
            push_char(&mut r, '"');
        } else {
            push_char(&mut r, c);
        }
        proof {
            assert(s@.take(i + 1).drop_last() =~= s@.take(i as int));
            assert(s@.take(i + 1).last() == c);
            assert(r@ =~= escape_quotes(s@.take(i + 1)));
        }
        i = i + 1;
    }
    proof {
        assert(s@.take(i as int) =~= s@);
    }
    r
}

/// The `Cargo.toml` text of a generated project.
pub fn generated_cargo_toml(manifest: &GeneratedManifest) -> (text: String)
    requires
        manifest_names_distinct(*manifest),
    ensures
        text@ == manifest_text(*manifest),
{
    let mut out = owned("[package]\nname = \"");
    if crate::strings::chars_of(manifest.package_name.as_str()).len() == 0 {
        out.append("kobo_project");
    } else {
        out.append(manifest.package_name.as_str());
    }
    out.append("\"\nversion = \"");
    if crate::strings::chars_of(manifest.package_version.as_str()).len() == 0 {
        out.append("0.1.0");
    } else {
        out.append(manifest.package_version.as_str());
    }
    out.append("\"\nedition = \"2021\"\n");
    match &manifest.build_script {
        Some(b) => {
            out.append("build = \"");
            out.append(b.as_str());
            out.append("\"\n");
        },
        None => {},
    }
    out.append("\n[workspace]\n");
    let ghost head = out@;
    push_section(&mut out, "workspace.dependencies", &manifest.workspace_dependencies);
    push_section(&mut out, "dependencies", &manifest.dependencies);
    push_section(&mut out, "build-dependencies", &manifest.build_dependencies);
    push_section(&mut out, "dev-dependencies", &manifest.dev_dependencies);
    let ghost sections = out@;
    let ts = &manifest.target_dependencies;
    let mut k: usize = 0;
    while k < ts.len()
        invariant
            k <= ts@.len(),
            manifest_names_distinct(*manifest),
            *ts == manifest.target_dependencies,
            out@ == sections + targets_text(ts@, k as int),
        decreases ts@.len() - k,
    {
        let t = &ts[k];
        proof {
            assert(distinct_names(t.dependencies@));
        }
        let mut head = owned("target.\"");
        let escaped = escaped_quotes(t.target.as_str());
        head.append(escaped.as_str());
        head.append("\".");
        let mut deps = head.clone();
        deps.append("dependencies");
        let mut build = head.clone();
        build.append("build-dependencies");
        let mut dev = head.clone();
        dev.append("dev-dependencies");
        push_section(&mut out, deps.as_str(), &t.dependencies);
        push_section(&mut out, build.as_str(), &t.build_dependencies);
        push_section(&mut out, dev.as_str(), &t.dev_dependencies);
        proof {
            assert(out@ =~= sections + targets_text(ts@, k + 1));
        }
        k = k + 1;
    }
    proof {
        assert(out@ =~= manifest_text(*manifest));
    }
    out
}

/// `s` with `x` inserted before the first entry whose name sorts after it.
pub open spec fn insert_by_name(s: Seq<DependencyEntry>, x: DependencyEntry) -> Seq<DependencyEntry>
    decreases s.len(),
{
    if s.len() == 0 {
        seq![x]
    } else if seq_less(x.name@, s[0].name@) {
        seq![x] + s
    } else {
        seq![s[0]] + insert_by_name(s.drop_first(), x)
    }
}

proof fn lemma_insert_by_name(s: Seq<DependencyEntry>, x: DependencyEntry)
    requires
        sorted_by_name(s),
        forall|i: int| 0 <= i < s.len() ==> (#[trigger] s[i]).name@ != x.name@,
    ensures
        sorted_by_name(insert_by_name(s, x)),
        insert_by_name(s, x).to_set() == s.to_set().insert(x),
        insert_by_name(s, x).len() == s.len() + 1,
        insert_by_name(s, x).len() > 0 && (insert_by_name(s, x)[0] == x || (s.len() > 0 && insert_by_name(s, x)[0] == s[0])),
    decreases s.len(),
{
    let r = insert_by_name(s, x);
    if s.len() == 0 {
        assert(r.to_set() =~= s.to_set().insert(x)) by {
            assert forall|y: DependencyEntry| r.to_set().contains(y) <==> s.to_set().insert(x).contains(y) by {
                if y == x {
                    assert(r[0] == x);
                }
            }
        }
    } else if seq_less(x.name@, s[0].name@) {
        assert forall|a: int, b: int| 0 <= a < b < r.len() implies seq_less((#[trigger] r[a]).name@, (#[trigger] r[b]).name@) by {
            if a == 0 {
                if b > 1 {
                    lemma_seq_less_transitive(x.name@, s[0].name@, s[b - 1].name@);
                }
            } else {
                assert(r[a] == s[a - 1] && r[b] == s[b - 1]);
            }
        }
        assert(r.to_set() =~= s.to_set().insert(x)) by {
            assert forall|y: DependencyEntry| r.to_set().contains(y) <==> s.to_set().insert(x).contains(y) by {
                if r.to_set().contains(y) {
                    let j = choose|j: int| 0 <= j < r.len() && r[j] == y;
                    if j > 0 {
                        assert(s[j - 1] == y);
                    }
                }
                if s.to_set().contains(y) {
                    let j = choose|j: int| 0 <= j < s.len() && s[j] == y;
                    assert(r[j + 1] == y);
                }
                if y == x {
                    assert(r[0] == x);
                }
            }
        }
    } else {
        let t = s.drop_first();
        assert forall|i: int, j: int| 0 <= i < j < t.len() implies seq_less((#[trigger] t[i]).name@, (#[trigger] t[j]).name@) by {
            assert(t[i] == s[i + 1] && t[j] == s[j + 1]);
        }
        assert forall|i: int| 0 <= i < t.len() implies (#[trigger] t[i]).name@ != x.name@ by {
            assert(t[i] == s[i + 1]);
        }
        lemma_insert_by_name(t, x);
        let rest = insert_by_name(t, x);
        lemma_seq_less_total(x.name@, s[0].name@);
        assert(s[0].name@ != x.name@);
        assert(seq_less(s[0].name@, x.name@));
        assert forall|a: int, b: int| 0 <= a < b < r.len() implies seq_less((#[trigger] r[a]).name@, (#[trigger] r[b]).name@) by {
            if a == 0 {
                assert(r[b] == rest[b - 1]);
                assert(rest.to_set().contains(rest[b - 1]));
                assert(t.to_set().insert(x).contains(rest[b - 1]));
                if rest[b - 1] != x {
                    let q = choose|q: int| 0 <= q < t.len() && t[q] == rest[b - 1];
                    assert(t[q] == s[q + 1]);
                }
            } else {
                assert(r[a] == rest[a - 1] && r[b] == rest[b - 1]);
            }
        }
        assert(r.to_set() =~= s.to_set().insert(x)) by {
            assert forall|y: DependencyEntry| r.to_set().contains(y) <==> s.to_set().insert(x).contains(y) by {
                if r.to_set().contains(y) {
                    let j = choose|j: int| 0 <= j < r.len() && r[j] == y;
                    if j > 0 {
                        assert(rest[j - 1] == y);
                        assert(rest.to_set().contains(y));
                        if y != x {
                            let q = choose|q: int| 0 <= q < t.len() && t[q] == y;
                            assert(s[q + 1] == y);
                        }
                    }
                }
                if s.to_set().contains(y) {
                    let j = choose|j: int| 0 <= j < s.len() && s[j] == y;
                    if j == 0 {
                        assert(r[0] == y);
                    } else {
                        assert(t[j - 1] == y);
                        assert(t.to_set().insert(x).contains(y));
                        assert(rest.to_set().contains(y));
                        let q = choose|q: int| 0 <= q < rest.len() && rest[q] == y;
                        assert(r[q + 1] == y);
                    }
                }
                if y == x {
                    assert(rest.to_set().contains(x));
                    let q = choose|q: int| 0 <= q < rest.len() && rest[q] == x;
                    assert(r[q + 1] == x);
                }
            }
        }
    }
}

/// Entries with distinct names have a sorted arrangement: `sorted_entries`
/// holds exactly the entries, sorted by name.
pub proof fn lemma_sorted_entries(es: Seq<DependencyEntry>)
    requires
        distinct_names(es),
    ensures
        sorted_by_name(sorted_entries(es)),
        sorted_entries(es).to_set() == es.to_set(),
    decreases es.len(),
{
    if es.len() == 0 {
        let e = Seq::<DependencyEntry>::empty();
        assert(e.to_set() =~= es.to_set());
        assert(sorted_by_name(e));
    } else {
        let prev = es.drop_last();
        assert forall|i: int, j: int| 0 <= i < j < prev.len() implies (#[trigger] prev[i]).name@ != (#[trigger] prev[j]).name@ by {
            assert(prev[i] == es[i] && prev[j] == es[j]);
        }
        lemma_sorted_entries(prev);
        let s0 = sorted_entries(prev);
        let x = es.last();
        assert forall|i: int| 0 <= i < s0.len() implies (#[trigger] s0[i]).name@ != x.name@ by {
            assert(s0.to_set().contains(s0[i]));
            assert(prev.to_set().contains(s0[i]));
            let q = choose|q: int| 0 <= q < prev.len() && prev[q] == s0[i];
            assert(es[q] == s0[i]);
            assert(es[es.len() - 1] == x);
        }
        lemma_insert_by_name(s0, x);
        let w = insert_by_name(s0, x);
        assert(w.to_set() =~= es.to_set()) by {
            assert forall|y: DependencyEntry| w.to_set().contains(y) <==> es.to_set().contains(y) by {
                if es.to_set().contains(y) {
                    let q = choose|q: int| 0 <= q < es.len() && es[q] == y;
                    if q < es.len() - 1 {
                        assert(prev[q] == y);
                        assert(prev.to_set().contains(y));
                    }
                }
                if prev.to_set().contains(y) {
                    let q = choose|q: int| 0 <= q < prev.len() && prev[q] == y;
                    assert(es[q] == y);
                }
                if y == x {
                    assert(es[es.len() - 1] == y);
                }
            }
        }
        assert(sorted_by_name(w) && w.to_set() == es.to_set());
    }
}

/// The line of a dependency entry, spelled out.
proof fn lemma_entries_text_contains(es: Seq<DependencyEntry>, i: int)
    requires
        0 <= i < es.len(),
    ensures
        contains_seq(entries_text(es), match es[i].value {
            DependencyValue::Version(v) => es[i].name@ + " = \""@ + v@ + "\"\n"@,
            DependencyValue::Other(t) => es[i].name@ + " = "@ + t@ + "\n"@,
        }),
    decreases es.len(),
{
    let line = entry_line(es[i]);
    let prev = entries_text(es.drop_last());
    if i == es.len() - 1 {
        lemma_contains_self(line);
        lemma_contains_extend(line, line, prev, Seq::empty());
        assert(prev + line + Seq::<char>::empty() =~= entries_text(es));
    } else {
        lemma_entries_text_contains(es.drop_last(), i);
        assert(es.drop_last()[i] == es[i]);
        lemma_contains_extend(prev, line, Seq::empty(), entry_line(es.last()));
        assert(Seq::<char>::empty() + prev + entry_line(es.last()) =~= entries_text(es));
    }
}

proof fn lemma_section_lists_entries(es: Seq<DependencyEntry>, e: DependencyEntry)
    requires
        distinct_names(es),
        es.contains(e),
    ensures
        contains_seq(entries_text(sorted_entries(es)), match e.value {
            DependencyValue::Version(v) => e.name@ + " = \""@ + v@ + "\"\n"@,
            DependencyValue::Other(t) => e.name@ + " = "@ + t@ + "\n"@,
        }),
{
    lemma_sorted_entries(es);
    let s = sorted_entries(es);
    assert(es.to_set().contains(e));
    assert(s.to_set().contains(e));
    let i = choose|i: int| 0 <= i < s.len() && s[i] == e;
    lemma_entries_text_contains(s, i);
}

/// The line of a dependency entry, spelled out.
pub open spec fn line_of(e: DependencyEntry) -> Seq<char> {
    match e.value {
        DependencyValue::Version(v) => e.name@ + " = \""@ + v@ + "\"\n"@,
        DependencyValue::Other(t) => e.name@ + " = "@ + t@ + "\n"@,
    }
}

proof fn lemma_section_at(before: Seq<char>, after: Seq<char>, header: Seq<char>, es: Seq<DependencyEntry>, e: DependencyEntry)
    requires
        distinct_names(es),
        es.contains(e),
    ensures
        contains_seq(before + section_text(header, es) + after, "\n["@ + header + "]\n"@ + entries_text(sorted_entries(es))),
        contains_seq(before + section_text(header, es) + after, line_of(e)),
{
    let h = "\n["@ + header + "]\n"@;
    let body = entries_text(sorted_entries(es));
    let sec = h + body;
    assert(section_text(header, es) == sec);
    lemma_contains_self(sec);
    lemma_contains_extend(sec, sec, before, after);
    lemma_section_lists_entries(es, e);
    lemma_contains_extend(body, line_of(e), before + h, after);
    assert(before + h + body + after =~= before + sec + after);
}

/// The package part of a manifest, before its dependency sections.
pub open spec fn manifest_head(m: GeneratedManifest) -> Seq<char> {
    let name = if m.package_name@.len() == 0 { "kobo_project"@ } else { m.package_name@ };
    let version = if m.package_version@.len() == 0 { "0.1.0"@ } else { m.package_version@ };
    let build = match m.build_script {
        Some(b) => "build = \""@ + b@ + "\"\n"@,
        None => Seq::empty(),
    };
    "[package]\nname = \""@ + name + "\"\nversion = \""@ + version + "\"\nedition = \"2021\"\n"@ + build
        + "\n[workspace]\n"@
}

proof fn lemma_manifest_parts(m: GeneratedManifest)
    ensures
        manifest_text(m) == manifest_head(m) + section_text("workspace.dependencies"@, m.workspace_dependencies@)
            + section_text("dependencies"@, m.dependencies@)
            + section_text("build-dependencies"@, m.build_dependencies@)
            + section_text("dev-dependencies"@, m.dev_dependencies@)
            + targets_text(m.target_dependencies@, m.target_dependencies@.len() as int),
{
}

/// Every workspace dependency appears as a line of the manifest's
/// `[workspace.dependencies]` section, which the manifest holds.
pub proof fn lemma_manifest_workspace_section(m: GeneratedManifest, e: DependencyEntry)
    requires
        manifest_names_distinct(m),
        m.workspace_dependencies@.contains(e),
    ensures
        contains_seq(manifest_text(m),
            "\n["@ + "workspace.dependencies"@ + "]\n"@ + entries_text(sorted_entries(m.workspace_dependencies@))),
        contains_seq(manifest_text(m), line_of(e)),
{
    lemma_manifest_parts(m);
    let rest = section_text("dependencies"@, m.dependencies@) + section_text("build-dependencies"@, m.build_dependencies@)
        + section_text("dev-dependencies"@, m.dev_dependencies@) + targets_text(m.target_dependencies@, m.target_dependencies@.len() as int);
    lemma_section_at(manifest_head(m), rest, "workspace.dependencies"@, m.workspace_dependencies@, e);
    assert(manifest_head(m) + section_text("workspace.dependencies"@, m.workspace_dependencies@) + rest =~= manifest_text(m));
}

/// Every dependency appears as a line of the manifest's `[dependencies]`
/// section, which the manifest holds.
pub proof fn lemma_manifest_dependencies_section(m: GeneratedManifest, e: DependencyEntry)
    requires
        manifest_names_distinct(m),
        m.dependencies@.contains(e),
    ensures
        contains_seq(manifest_text(m), "\n["@ + "dependencies"@ + "]\n"@ + entries_text(sorted_entries(m.dependencies@))),
        contains_seq(manifest_text(m), line_of(e)),
{
    lemma_manifest_parts(m);
    let before = manifest_head(m) + section_text("workspace.dependencies"@, m.workspace_dependencies@);
    let rest = section_text("build-dependencies"@, m.build_dependencies@)
        + section_text("dev-dependencies"@, m.dev_dependencies@) + targets_text(m.target_dependencies@, m.target_dependencies@.len() as int);
    lemma_section_at(before, rest, "dependencies"@, m.dependencies@, e);
    assert(before + section_text("dependencies"@, m.dependencies@) + rest =~= manifest_text(m));
}

/// Every build dependency appears as a line of the manifest's
/// `[build-dependencies]` section, which the manifest holds.
pub proof fn lemma_manifest_build_section(m: GeneratedManifest, e: DependencyEntry)
    requires
        manifest_names_distinct(m),
        m.build_dependencies@.contains(e),
    ensures
        contains_seq(manifest_text(m), "\n["@ + "build-dependencies"@ + "]\n"@ + entries_text(sorted_entries(m.build_dependencies@))),
        contains_seq(manifest_text(m), line_of(e)),
{
    lemma_manifest_parts(m);
    let before = manifest_head(m) + section_text("workspace.dependencies"@, m.workspace_dependencies@)
        + section_text("dependencies"@, m.dependencies@);
    let rest = section_text("dev-dependencies"@, m.dev_dependencies@) + targets_text(m.target_dependencies@, m.target_dependencies@.len() as int);
    lemma_section_at(before, rest, "build-dependencies"@, m.build_dependencies@, e);
    assert(before + section_text("build-dependencies"@, m.build_dependencies@) + rest =~= manifest_text(m));
}

/// Every dev dependency appears as a line of the manifest's
/// `[dev-dependencies]` section, which the manifest holds.
pub proof fn lemma_manifest_dev_section(m: GeneratedManifest, e: DependencyEntry)
    requires
        manifest_names_distinct(m),
        m.dev_dependencies@.contains(e),
    ensures
        contains_seq(manifest_text(m), "\n["@ + "dev-dependencies"@ + "]\n"@ + entries_text(sorted_entries(m.dev_dependencies@))),
        contains_seq(manifest_text(m), line_of(e)),
{
    lemma_manifest_parts(m);
    let before = manifest_head(m) + section_text("workspace.dependencies"@, m.workspace_dependencies@)
        + section_text("dependencies"@, m.dependencies@) + section_text("build-dependencies"@, m.build_dependencies@);
    let rest = targets_text(m.target_dependencies@, m.target_dependencies@.len() as int);
    lemma_section_at(before, rest, "dev-dependencies"@, m.dev_dependencies@, e);
}

} // verus!
