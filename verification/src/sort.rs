//! Stable insertion order: the specification of sorting by a strict order,
//! with the laws that the result is ordered and holds the same elements.
use vstd::prelude::*;

verus! {

/// The first position in `s` whose element `x` must come before, or `s.len()`.
pub open spec fn ins_pos<T>(s: Seq<T>, x: T, before: spec_fn(T, T) -> bool) -> int
    decreases s.len(),
{
    if s.len() == 0 {
        0
    } else if before(x, s[0]) {
        0
    } else {
        1 + ins_pos(s.drop_first(), x, before)
    }
}

/// `s` sorted stably by `before`: each element in turn is placed after every
/// element already placed that it need not come before.
pub open spec fn stable_sort<T>(s: Seq<T>, before: spec_fn(T, T) -> bool) -> Seq<T>
    decreases s.len(),
{
    if s.len() == 0 {
        s
    } else {
        let r = stable_sort(s.drop_last(), before);
        r.insert(ins_pos(r, s.last(), before), s.last())
    }
}

/// No later element of `s` must come before an earlier one.
pub open spec fn sorted_by<T>(s: Seq<T>, before: spec_fn(T, T) -> bool) -> bool {
    forall|i: int, j: int| 0 <= i < j < s.len() ==> !before(#[trigger] s[j], #[trigger] s[i])
}

/// `before` is irreflexive and transitive.
pub open spec fn strict_order<T>(before: spec_fn(T, T) -> bool) -> bool {
    &&& forall|a: T| !#[trigger] before(a, a)
    &&& forall|a: T, b: T, c: T| #[trigger] before(a, b) && #[trigger] before(b, c) ==> before(a, c)
}

pub proof fn lemma_ins_pos<T>(s: Seq<T>, x: T, before: spec_fn(T, T) -> bool, p: int)
    requires
        0 <= p <= s.len(),
        forall|j: int| 0 <= j < p ==> !before(x, #[trigger] s[j]),
        p < s.len() ==> before(x, s[p]),
    ensures
        ins_pos(s, x, before) == p,
    decreases s.len(),
{
    if s.len() > 0 && p > 0 {
        assert forall|j: int| 0 <= j < p - 1 implies !before(x, #[trigger] s.drop_first()[j]) by {
            assert(s.drop_first()[j] == s[j + 1]);
        }
        if p < s.len() {
            assert(s.drop_first()[p - 1] == s[p]);
        }
        lemma_ins_pos(s.drop_first(), x, before, p - 1);
    }
}

proof fn lemma_ins_pos_props<T>(s: Seq<T>, x: T, before: spec_fn(T, T) -> bool)
    ensures
        0 <= ins_pos(s, x, before) <= s.len(),
        forall|j: int| 0 <= j < ins_pos(s, x, before) ==> !before(x, #[trigger] s[j]),
        ins_pos(s, x, before) < s.len() ==> before(x, s[ins_pos(s, x, before)]),
    decreases s.len(),
{
    if s.len() > 0 && !before(x, s[0]) {
        lemma_ins_pos_props(s.drop_first(), x, before);
        assert forall|j: int| 0 <= j < ins_pos(s, x, before) implies !before(x, #[trigger] s[j]) by {
            if j > 0 {
                assert(s[j] == s.drop_first()[j - 1]);
            }
        }
    }
}

/// A stable sort by a strict order is ordered.
pub proof fn lemma_stable_sort_sorted<T>(s: Seq<T>, before: spec_fn(T, T) -> bool)
    requires
        strict_order(before),
    ensures
        sorted_by(stable_sort(s, before), before),
    decreases s.len(),
{
    if s.len() > 0 {
        let r = stable_sort(s.drop_last(), before);
        lemma_stable_sort_sorted(s.drop_last(), before);
        let x = s.last();
        let p = ins_pos(r, x, before);
        lemma_ins_pos_props(r, x, before);
        let t = r.insert(p, x);
        assert forall|i: int, j: int| 0 <= i < j < t.len() implies !before(#[trigger] t[j], #[trigger] t[i]) by {
            if j < p {
                assert(t[i] == r[i] && t[j] == r[j]);
            } else if j == p {
                assert(t[i] == r[i]);
            } else if i == p {
                assert(t[j] == r[j - 1]);
                if before(r[j - 1], x) {
                    assert(before(x, r[p]));
                    if j - 1 == p {
                        assert(before(x, x));
                    } else {
                        assert(before(r[j - 1], r[p]));
                    }
                }
            } else if i < p {
                assert(t[i] == r[i] && t[j] == r[j - 1]);
            } else {
                assert(t[i] == r[i - 1] && t[j] == r[j - 1]);
            }
        }
    }
}

/// A stable sort keeps exactly the elements it was given.
pub proof fn lemma_stable_sort_multiset<T>(s: Seq<T>, before: spec_fn(T, T) -> bool)
    ensures
        stable_sort(s, before).to_multiset() == s.to_multiset(),
        stable_sort(s, before).len() == s.len(),
    decreases s.len(),
{
    broadcast use vstd::seq_lib::group_to_multiset_ensures;
    if s.len() > 0 {
        let r = stable_sort(s.drop_last(), before);
        lemma_stable_sort_multiset(s.drop_last(), before);
        lemma_ins_pos_props(r, s.last(), before);
        vstd::seq_lib::to_multiset_insert(r, ins_pos(r, s.last(), before), s.last());
        assert(s.drop_last().push(s.last()) == s);
    }
}

} // verus!
