//! The locals that stay live across an await: those declared before it that
//! a later use still needs, other than `_`-prefixed ones.
use vstd::prelude::*;
use crate::templates::{sorted_strict, texts};
use crate::text::str_equals;

verus! {

/// A binding that counts as a live local: it does not start with `_`.
pub open spec fn counted_local(binding: Seq<char>) -> bool {
    !(binding.len() > 0 && binding[0] == '_')
}

/// The declared bindings, in their sorted order, that are counted and used later.
pub open spec fn live_of(live_uses: Seq<Seq<char>>, declared: Seq<Seq<char>>) -> Seq<Seq<char>> {
    declared.filter(|b: Seq<char>| counted_local(b) && live_uses.contains(b))
}

pub proof fn lemma_filter_sorted(s: Seq<Seq<char>>, p: spec_fn(Seq<char>) -> bool)
    requires
        sorted_strict(s),
    ensures
        sorted_strict(s.filter(p)),
        forall|x: Seq<char>| s.filter(p).contains(x) <==> (s.contains(x) && p(x)),
    decreases s.len(),
{
    if s.len() > 0 {
        let prev = s.drop_last();
        assert forall|i: int, j: int| 0 <= i < j < prev.len() implies crate::text::seq_less(#[trigger] prev[i], #[trigger] prev[j]) by {
            assert(prev[i] == s[i]);
            assert(prev[j] == s[j]);
        }
        lemma_filter_sorted(prev, p);
        prev.lemma_filter_push(s.last(), p);
        assert(prev.push(s.last()) =~= s);
        let f = prev.filter(p);
        assert forall|x: Seq<char>| s.filter(p).contains(x) <==> (s.contains(x) && p(x)) by {
            if s.contains(x) && p(x) {
                let k = choose|k: int| 0 <= k < s.len() && s[k] == x;
                if k < s.len() - 1 {
                    assert(prev[k] == x);
                    assert(prev.contains(x));
                    assert(f.contains(x));
                    let m = choose|m: int| 0 <= m < f.len() && f[m] == x;
                    if p(s.last()) {
                        assert(f.push(s.last())[m] == x);
                    }
                } else {
                    assert(f.push(s.last())[f.len() as int] == x);
                }
            }
            if s.filter(p).contains(x) {
                let m = choose|m: int| 0 <= m < s.filter(p).len() && s.filter(p)[m] == x;
                if m < f.len() {
                    if p(s.last()) {
                        assert(f.push(s.last())[m] == f[m]);
                    }
                    assert(f.contains(x));
                    assert(prev.filter(p).contains(x));
                    assert(prev.contains(x));
                    let k = choose|k: int| 0 <= k < prev.len() && prev[k] == x;
                    assert(s[k] == x);
                } else {
                    assert(x == s.last());
                    assert(s[s.len() - 1] == x);
                }
            }
        }
        if p(s.last()) {
            let g = f.push(s.last());
            assert forall|i: int, j: int| 0 <= i < j < g.len() implies crate::text::seq_less(#[trigger] g[i], #[trigger] g[j]) by {
                if j == g.len() - 1 {
                    assert(g[i] == f[i]);
                    assert(f.contains(g[i]));
                    assert(prev.filter(p).contains(g[i]));
                    assert(prev.contains(g[i]));
                    let k = choose|k: int| 0 <= k < prev.len() && prev[k] == g[i];
                    assert(s[k] == g[i]);
                    assert(s[s.len() - 1] == s.last());
                } else {
                    assert(g[i] == f[i]);
                    assert(g[j] == f[j]);
                }
            }
        }
    }
}

/// The declared bindings, in sorted order, that are used later and do not
/// start with `_`.
pub fn live_declared_locals(live_uses: &[String], declared_before: &[String]) -> (r: Vec<String>)
    requires
        sorted_strict(texts(declared_before@)),
    ensures
        texts(r@) == live_of(texts(live_uses@), texts(declared_before@)),
        sorted_strict(texts(r@)),
{
    let ghost uses = texts(live_uses@);
    let ghost keep = |b: Seq<char>| counted_local(b) && uses.contains(b);
    let mut r: Vec<String> = Vec::new();
    let mut i: usize = 0;
    proof {
        assert(texts(declared_before@.take(0)).filter(keep) =~= Seq::<Seq<char>>::empty());
        assert(texts(r@) =~= Seq::<Seq<char>>::empty());
    }
    while i < declared_before.len()
        invariant
            i <= declared_before@.len(),
            uses == texts(live_uses@),
            forall|b: Seq<char>| #[trigger] keep(b) == (counted_local(b) && uses.contains(b)),
            texts(r@) == texts(declared_before@.take(i as int)).filter(keep),
        decreases declared_before@.len() - i,
    {
        let binding = &declared_before[i];
        let chars = crate::strings::chars_of(binding.as_str());
        let underscore = chars.len() > 0 && chars[0] == '_';
        let mut used = false;
        let mut j: usize = 0;
        while j < live_uses.len()
            invariant
                j <= live_uses@.len(),
                uses == texts(live_uses@),
                used == exists|q: int| 0 <= q < j && (#[trigger] uses[q]) == binding@,
            decreases live_uses@.len() - j,
        {
            proof {
                assert(uses[j as int] == live_uses@[j as int]@);
            }
            if str_equals(live_uses[j].as_str(), binding.as_str()) {
                used = true;
            }
            j = j + 1;
        }
        proof {
            assert(used == uses.contains(binding@));
            assert(underscore == !counted_local(binding@));
            assert(texts(declared_before@.take(i + 1)).drop_last() =~= texts(declared_before@.take(i as int)));
            assert(texts(declared_before@.take(i + 1)).last() == binding@);
            texts(declared_before@.take(i as int)).lemma_filter_push(binding@, keep);
            assert(texts(declared_before@.take(i as int)).push(binding@) =~= texts(declared_before@.take(i + 1)));
        }
        if !underscore && used {
            let ghost before = r@;
            r.push(binding.clone());
            proof {
                assert(texts(r@) =~= texts(before).push(binding@));
            }
        }
        i = i + 1;
    }
    proof {
        assert(declared_before@.take(i as int) =~= declared_before@);
        assert(keep =~= (|b: Seq<char>| counted_local(b) && uses.contains(b)));
        lemma_filter_sorted(texts(declared_before@), keep);
    }
    r
}

} // verus!
