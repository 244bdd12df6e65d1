//! Sorting named values by name.
use vstd::prelude::*;

use crate::named::Named;
use crate::text::{lemma_lex_total, lemma_lex_transitive, lex_le, lex_lt, text_less};

verus! {

broadcast use vstd::seq_lib::group_to_multiset_ensures;

/// The names of `s` never decrease.
pub open spec fn sorted_by_name<T: Named>(s: Seq<T>) -> bool {
    forall|i: int, j: int| 0 <= i < j < s.len() ==> lex_le(s[i].name_view(), s[j].name_view())
}

/// The first position of sorted `s` whose name is strictly above `x`'s.
fn insertion_point<T: Named>(s: &Vec<T>, x: &T) -> (p: usize)
    ensures
        p <= s.len(),
        forall|i: int| 0 <= i < p ==> !lex_lt(x.name_view(), #[trigger] s@[i].name_view()),
        p < s.len() ==> lex_lt(x.name_view(), s@[p as int].name_view()),
{
    let mut p: usize = 0;
    while p < s.len()
        invariant
            p <= s.len(),
            forall|i: int| 0 <= i < p ==> !lex_lt(x.name_view(), #[trigger] s@[i].name_view()),
        decreases s.len() - p,
    {
        if text_less(x.name().as_str(), s[p].name().as_str()) {
            return p;
        }
        p = p + 1;
    }
    p
}

/// `v` sorted by name; equal names keep no particular order.
pub fn sort_by_name<T: Named>(v: Vec<T>) -> (r: Vec<T>)
    ensures
        r@.to_multiset() == v@.to_multiset(),
        sorted_by_name(r@),
{
    let mut rest = v;
    let mut out: Vec<T> = Vec::new();
    let ghost given = rest@;
    assert(given.to_multiset() =~= rest@.to_multiset().add(out@.to_multiset()));
    while rest.len() > 0
        invariant
            given.to_multiset() == rest@.to_multiset().add(out@.to_multiset()),
            sorted_by_name(out@),
        decreases rest.len(),
    {
        let ghost before = rest@;
        let x = rest.pop().unwrap();
        assert(before =~= rest@.push(x));
        let p = insertion_point(&out, &x);
        let ghost old_out = out@;
        out.insert(p, x);
        assert(out@ =~= old_out.insert(p as int, x));
        assert(out@.remove(p as int) =~= old_out);
        assert(out@.to_multiset().remove(x) =~= old_out.to_multiset());
        assert(out@.contains(x)) by {
            assert(out@[p as int] == x);
        }
        assert(out@.to_multiset() =~= old_out.to_multiset().insert(x));
        assert(given.to_multiset() =~= rest@.to_multiset().add(out@.to_multiset()));
        assert forall|i: int, j: int| 0 <= i < j < out@.len() implies lex_le(
            out@[i].name_view(),
            out@[j].name_view(),
        ) by {
            let n = out@;
            if i < p && j == p {
                assert(!lex_lt(x.name_view(), old_out[i].name_view()));
            } else if i < p && j > p {
                assert(lex_le(old_out[i].name_view(), old_out[j - 1].name_view()));
            } else if i == p && j > p {
                let a = x.name_view();
                let b = old_out[p as int].name_view();
                let c = old_out[j - 1].name_view();
                assert(lex_lt(a, b));
                if j - 1 > p {
                    assert(lex_le(b, c));
                }
                if lex_lt(c, a) {
                    lemma_lex_transitive(c, a, b);
                    if j - 1 > p {
                    } else {
                        crate::text::lemma_lex_irreflexive(b);
                    }
                }
            } else if i > p {
                assert(lex_le(old_out[i - 1].name_view(), old_out[j - 1].name_view()));
            } else {
                assert(lex_le(old_out[i].name_view(), old_out[j].name_view()));
            }
        }
    }
    assert(rest@ =~= Seq::<T>::empty());
    assert(given.to_multiset() =~= out@.to_multiset());
    out
}

/// Sorted with no name twice means strictly increasing names.
pub proof fn lemma_sorted_distinct_strictly_increasing<T: Named>(s: Seq<T>, i: int, j: int)
    requires
        sorted_by_name(s),
        0 <= i < j < s.len(),
        s[i].name_view() != s[j].name_view(),
    ensures
        lex_lt(s[i].name_view(), s[j].name_view()),
{
    assert(lex_le(s[i].name_view(), s[j].name_view()));
    lemma_lex_total(s[i].name_view(), s[j].name_view());
}

/// No two elements of `s` carry the same name.
pub open spec fn distinct_names<T: Named>(s: Seq<T>) -> bool {
    forall|i: int, j: int| 0 <= i < j < s.len() ==> s[i].name_view() != s[j].name_view()
}

/// Rearranging a sequence whose names are distinct keeps its elements and
/// keeps the names distinct.
pub proof fn lemma_rearranged_distinct<T: Named>(a: Seq<T>, b: Seq<T>)
    requires
        a.to_multiset() == b.to_multiset(),
        distinct_names(a),
    ensures
        distinct_names(b),
        forall|x: T| b.contains(x) <==> a.contains(x),
{
    assert forall|x: T| b.contains(x) <==> a.contains(x) by {
        assert(b.contains(x) <==> b.to_multiset().count(x) > 0);
        assert(a.contains(x) <==> a.to_multiset().count(x) > 0);
    }
    assert(a.no_duplicates());
    a.lemma_multiset_has_no_duplicates();
    b.lemma_multiset_has_no_duplicates_conv();
    assert forall|i: int, j: int| 0 <= i < j < b.len() implies b[i].name_view() != b[j].name_view() by {
        assert(b.contains(b[i]));
        assert(b.contains(b[j]));
        let k = choose|k: int| 0 <= k < a.len() && a[k] == b[i];
        let l = choose|l: int| 0 <= l < a.len() && a[l] == b[j];
        assert(b[i] != b[j]);
        assert(k != l);
        if k < l {
        } else {
        }
    }
}

/// No two elements of `s` have the same `key`.
pub open spec fn distinct_by<T, K>(s: Seq<T>, key: spec_fn(T) -> K) -> bool {
    forall|i: int, j: int| 0 <= i < j < s.len() ==> key(s[i]) != key(s[j])
}

/// Rearranging a sequence whose keys are distinct keeps its elements and keeps
/// the keys distinct.
pub proof fn lemma_rearranged_distinct_by<T, K>(a: Seq<T>, b: Seq<T>, key: spec_fn(T) -> K)
    requires
        a.to_multiset() == b.to_multiset(),
        distinct_by(a, key),
    ensures
        distinct_by(b, key),
        forall|x: T| b.contains(x) <==> a.contains(x),
{
    assert forall|x: T| b.contains(x) <==> a.contains(x) by {
        assert(b.contains(x) <==> b.to_multiset().count(x) > 0);
        assert(a.contains(x) <==> a.to_multiset().count(x) > 0);
    }
    assert(a.no_duplicates());
    a.lemma_multiset_has_no_duplicates();
    b.lemma_multiset_has_no_duplicates_conv();
    assert forall|i: int, j: int| 0 <= i < j < b.len() implies key(b[i]) != key(b[j]) by {
        assert(b.contains(b[i]));
        assert(b.contains(b[j]));
        let k = choose|k: int| 0 <= k < a.len() && a[k] == b[i];
        let l = choose|l: int| 0 <= l < a.len() && a[l] == b[j];
        assert(b[i] != b[j]);
        assert(k != l);
        if k < l {
        } else {
        }
    }
}

} // verus!
