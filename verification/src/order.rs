use vstd::prelude::*;

use crate::text::chars_of;

verus! {

/// Lexicographic order on texts, character by character. `String`'s own
/// order compares UTF-8 bytes, which orders characters by code point, so the
/// two agree.
pub open spec fn text_lt(a: Seq<char>, b: Seq<char>) -> bool
    decreases a.len(),
{
    if a.len() == 0 {
        b.len() > 0
    } else if b.len() == 0 {
        false
    } else if a[0] != b[0] {
        a[0] < b[0]
    } else {
        text_lt(a.drop_first(), b.drop_first())
    }
}

pub proof fn lemma_text_lt_irreflexive(a: Seq<char>)
    ensures
        !text_lt(a, a),
    decreases a.len(),
{
    if a.len() > 0 {
        lemma_text_lt_irreflexive(a.drop_first());
    }
}

pub proof fn lemma_text_lt_asymmetric(a: Seq<char>, b: Seq<char>)
    ensures
        text_lt(a, b) ==> !text_lt(b, a),
    decreases a.len(),
{
    if a.len() > 0 && b.len() > 0 && a[0] == b[0] {
        lemma_text_lt_asymmetric(a.drop_first(), b.drop_first());
    }
}

pub proof fn lemma_text_lt_transitive(a: Seq<char>, b: Seq<char>, c: Seq<char>)
    ensures
        text_lt(a, b) && text_lt(b, c) ==> text_lt(a, c),
    decreases a.len(),
{
    if a.len() > 0 && b.len() > 0 && c.len() > 0 {
        lemma_text_lt_transitive(a.drop_first(), b.drop_first(), c.drop_first());
    }
}

pub proof fn lemma_text_lt_total(a: Seq<char>, b: Seq<char>)
    ensures
        a != b ==> text_lt(a, b) || text_lt(b, a),
    decreases a.len(),
{
    if a.len() > 0 && b.len() > 0 {
        lemma_text_lt_total(a.drop_first(), b.drop_first());
        if a[0] == b[0] && a.drop_first() == b.drop_first() {
            assert(a =~= seq![a[0]] + a.drop_first());
            assert(b =~= seq![b[0]] + b.drop_first());
        }
    } else if a.len() == 0 && b.len() == 0 {
        assert(a =~= b);
    }
}

proof fn lemma_text_lt_step(a: Seq<char>, b: Seq<char>, i: int)
    requires
        0 <= i <= a.len(),
        0 <= i <= b.len(),
        a.take(i) == b.take(i),
    ensures
        text_lt(a, b) == text_lt(a.skip(i), b.skip(i)),
    decreases i,
{
    if i > 0 {
        assert(a[0] == a.take(i)[0]);
        assert(b[0] == b.take(i)[0]);
        assert(a.drop_first().take(i - 1) =~= a.take(i).drop_first());
        assert(b.drop_first().take(i - 1) =~= b.take(i).drop_first());
        lemma_text_lt_step(a.drop_first(), b.drop_first(), i - 1);
        assert(a.drop_first().skip(i - 1) =~= a.skip(i));
        assert(b.drop_first().skip(i - 1) =~= b.skip(i));
    } else {
        assert(a.skip(0) =~= a);
        assert(b.skip(0) =~= b);
    }
}

/// Whether `a` sorts strictly before `b`.
pub fn chars_lt(a: &Vec<char>, b: &Vec<char>) -> (r: bool)
    ensures
        r == text_lt(a@, b@),
{
    let mut i: usize = 0;
    while i < a.len() && i < b.len() && a[i] == b[i]
        invariant
            i <= a.len(),
            i <= b.len(),
            a@.take(i as int) == b@.take(i as int),
        decreases a.len() - i,
    {
        assert(a@.take(i + 1) =~= a@.take(i as int).push(a@[i as int]));
        assert(b@.take(i + 1) =~= b@.take(i as int).push(b@[i as int]));
        i += 1;
    }
    proof {
        lemma_text_lt_step(a@, b@, i as int);
    }
    if i == a.len() {
        i < b.len()
    } else if i == b.len() {
        false
    } else {
        a[i] < b[i]
    }
}

/// Whether `a` sorts strictly before `b`.
pub fn str_lt(a: &str, b: &str) -> (r: bool)
    ensures
        r == text_lt(a@, b@),
{
    chars_lt(&chars_of(a), &chars_of(b))
}

/// Texts in non-decreasing order.
pub open spec fn texts_sorted(s: Seq<Seq<char>>) -> bool {
    forall|i: int, j: int| 0 <= i < j < s.len() ==> !text_lt(#[trigger] s[j], #[trigger] s[i])
}

pub open spec fn string_texts(v: Seq<String>) -> Seq<Seq<char>> {
    v.map_values(|s: String| s@)
}

/// The texts of `v`, sorted as `sort` sorts strings: the same texts, each as
/// often as in `v`, in non-decreasing order.
pub fn sorted_texts(v: &[String]) -> (r: Vec<String>)
    ensures
        string_texts(r@).to_multiset() == string_texts(v@).to_multiset(),
        texts_sorted(string_texts(r@)),
{
    let ghost vs = string_texts(v@);
    let mut out: Vec<String> = Vec::new();
    let mut i: usize = 0;
    assert(string_texts(out@) =~= vs.take(0));
    while i < v.len()
        invariant
            i <= v.len(),
            vs == string_texts(v@),
            string_texts(out@).to_multiset() == vs.take(i as int).to_multiset(),
            texts_sorted(string_texts(out@)),
        decreases v.len() - i,
    {
        let x = &v[i];
        let ghost os = string_texts(out@);
        let mut p: usize = 0;
        while p < out.len() && !str_lt(x.as_str(), out[p].as_str())
            invariant
                p <= out.len(),
                os == string_texts(out@),
                forall|k: int| 0 <= k < p ==> !text_lt(x@, #[trigger] os[k]),
            decreases out.len() - p,
        {
            p += 1;
        }
        proof {
            // Everything from `p` on is above `x`.
            if p < out.len() {
                assert(text_lt(x@, os[p as int]));
                assert forall|k: int| p <= k < os.len() implies text_lt(x@, #[trigger] os[k]) by {
                    if k > p {
                        assert(!text_lt(os[k], os[p as int]));
                        lemma_text_lt_total(os[k], os[p as int]);
                        if os[k] != os[p as int] {
                            lemma_text_lt_transitive(x@, os[p as int], os[k]);
                        }
                    }
                }
            }
        }
        out.insert(p, x.clone());
        proof {
            let ns = string_texts(out@);
            assert(ns =~= os.insert(p as int, x@));
            assert(vs.take(i + 1) =~= vs.take(i as int).push(x@));
            vstd::seq_lib::to_multiset_build(vs.take(i as int), x@);
            vstd::seq_lib::to_multiset_insert(os, p as int, x@);
            assert(ns.to_multiset() == vs.take(i + 1).to_multiset());
            assert forall|a: int, b: int| 0 <= a < b < ns.len() implies !text_lt(#[trigger] ns[b], #[trigger] ns[a]) by {
                if a < p && b < p {
                    assert(ns[a] == os[a] && ns[b] == os[b]);
                } else if a < p && b == p {
                    assert(ns[a] == os[a] && ns[b] == x@);
                } else if a < p {
                    assert(ns[a] == os[a] && ns[b] == os[b - 1]);
                } else if a == p {
                    assert(ns[a] == x@ && ns[b] == os[b - 1]);
                    assert(text_lt(x@, os[b - 1]));
                    lemma_text_lt_asymmetric(x@, os[b - 1]);
                } else {
                    assert(ns[a] == os[a - 1] && ns[b] == os[b - 1]);
                }
            }
        }
        i += 1;
    }
    assert(vs.take(i as int) =~= vs);
    out
}

} // verus!
