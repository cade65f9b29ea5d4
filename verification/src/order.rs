//! Sequences kept in ascending order: where a new element goes, and what
//! holds once it is there.

use vstd::prelude::*;

verus! {

/// `less` is a strict total order: nothing comes before itself, the
/// relation is transitive, and of two different values one comes first.
pub open spec fn strict_total<A>(less: spec_fn(A, A) -> bool) -> bool {
    &&& forall|a: A| !#[trigger] less(a, a)
    &&& forall|a: A, b: A, c: A| #[trigger] less(a, b) && #[trigger] less(b, c) ==> less(a, c)
    &&& forall|a: A, b: A| a != b ==> #[trigger] less(a, b) || #[trigger] less(b, a)
}

/// Every element comes strictly before every later one.
pub open spec fn ascending<A>(s: Seq<A>, less: spec_fn(A, A) -> bool) -> bool {
    forall|i: int, j: int| 0 <= i < j < s.len() ==> #[trigger] less(s[i], s[j])
}

/// The index of the first element that `x` comes strictly before, or the
/// length when there is none: where `x` goes so that it follows everything
/// that does not come after it.
pub open spec fn rank<A>(s: Seq<A>, x: A, less: spec_fn(A, A) -> bool) -> nat
    decreases s.len(),
{
    if s.len() == 0 || less(x, s[0]) {
        0
    } else {
        1 + rank(s.drop_first(), x, less)
    }
}

/// `s` with `x` in its place, unless `s` holds `x` already.
pub open spec fn set_inserted<A>(s: Seq<A>, x: A, less: spec_fn(A, A) -> bool) -> Seq<A> {
    let i = rank(s, x, less) as int;
    if i > 0 && s[i - 1] == x {
        s
    } else {
        s.insert(i, x)
    }
}

/// What `rank` returns: nothing before that index comes after `x`, and the
/// element at that index, if there is one, does.
pub proof fn lemma_rank<A>(s: Seq<A>, x: A, less: spec_fn(A, A) -> bool)
    ensures
        rank(s, x, less) <= s.len(),
        forall|j: int| 0 <= j < rank(s, x, less) ==> !less(x, #[trigger] s[j]),
        rank(s, x, less) < s.len() ==> less(x, s[rank(s, x, less) as int]),
    decreases s.len(),
{
    if s.len() == 0 || less(x, s[0]) {
    } else {
        let rest = s.drop_first();
        lemma_rank(rest, x, less);
        assert forall|j: int| 0 <= j < rank(s, x, less) implies !less(x, #[trigger] s[j]) by {
            if j > 0 {
                assert(!less(x, rest[j - 1]));
            }
        }
    }
}

/// In an ascending sequence the rank of `x` splits the elements into those
/// before `x` or equal to it, and those after it.
pub proof fn lemma_rank_ascending<A>(s: Seq<A>, x: A, less: spec_fn(A, A) -> bool)
    requires
        strict_total(less),
        ascending(s, less),
    ensures
        forall|j: int| rank(s, x, less) <= j < s.len() ==> less(x, #[trigger] s[j]),
        forall|j: int| 0 <= j < rank(s, x, less) - 1 ==> less(#[trigger] s[j], x),
        rank(s, x, less) > 0 ==> s[rank(s, x, less) - 1] == x || less(
            s[rank(s, x, less) - 1],
            x,
        ),
        s.contains(x) <==> rank(s, x, less) > 0 && s[rank(s, x, less) - 1] == x,
{
    let r = rank(s, x, less) as int;
    lemma_rank(s, x, less);
    assert forall|j: int| r <= j < s.len() implies less(x, #[trigger] s[j]) by {
        if j > r {
            assert(less(s[r], s[j]));
        }
    }
    assert forall|j: int| 0 <= j < r - 1 implies less(#[trigger] s[j], x) by {
        assert(less(s[j], s[r - 1]));
        assert(!less(x, s[r - 1]));
        if s[r - 1] != x {
            assert(less(s[r - 1], x));
        }
    }
    if r > 0 {
        assert(!less(x, s[r - 1]));
    }
    if s.contains(x) {
        let k = choose|k: int| 0 <= k < s.len() && s[k] == x;
        if k >= r {
            assert(less(x, s[k]));
        } else if k < r - 1 {
            assert(less(s[k], x));
        }
    }
}

/// Putting `x` in keeps the sequence ascending, and adds `x` to its
/// elements and nothing else.
pub proof fn lemma_set_inserted<A>(s: Seq<A>, x: A, less: spec_fn(A, A) -> bool)
    requires
        strict_total(less),
        ascending(s, less),
    ensures
        ascending(set_inserted(s, x, less), less),
        set_inserted(s, x, less).to_set() == s.to_set().insert(x),
{
    let r = rank(s, x, less) as int;
    let t = set_inserted(s, x, less);
    lemma_rank(s, x, less);
    lemma_rank_ascending(s, x, less);
    if r > 0 && s[r - 1] == x {
        assert(s.to_set().insert(x) =~= s.to_set());
    } else {
        assert forall|i: int, j: int| 0 <= i < j < t.len() implies #[trigger] less(t[i], t[j]) by {
            if i < r && j > r {
                assert(less(s[i], s[j - 1]));
            } else if i < r && j == r {
                if i < r - 1 {
                    assert(less(s[i], x));
                }
            } else if i == r {
                assert(less(x, s[j - 1]));
            } else if i > r {
                assert(less(s[i - 1], s[j - 1]));
            } else {
                assert(less(s[i], s[j]));
            }
        }
        assert forall|e: A| t.to_set().contains(e) == s.to_set().insert(x).contains(e) by {
            if t.contains(e) {
                let k = choose|k: int| 0 <= k < t.len() && t[k] == e;
                if k < r {
                    assert(s[k] == e);
                } else if k > r {
                    assert(s[k - 1] == e);
                }
            }
            if s.contains(e) {
                let k = choose|k: int| 0 <= k < s.len() && s[k] == e;
                if k < r {
                    assert(t[k] == e);
                } else {
                    assert(t[k + 1] == e);
                }
            }
            if e == x {
                assert(t[r] == e);
            }
        }
        assert(t.to_set() =~= s.to_set().insert(x));
    }
}

/// An ascending sequence is determined by the set of its elements.
pub proof fn lemma_ascending_unique<A>(s: Seq<A>, t: Seq<A>, less: spec_fn(A, A) -> bool)
    requires
        strict_total(less),
        ascending(s, less),
        ascending(t, less),
        s.to_set() == t.to_set(),
    ensures
        s == t,
    decreases s.len(),
{
    if s.len() == 0 {
        if t.len() > 0 {
            assert(t.to_set().contains(t[0]));
            assert(s.contains(t[0]));
        }
        assert(s =~= t);
    } else if t.len() == 0 {
        assert(s.to_set().contains(s[0]));
        assert(t.contains(s[0]));
    } else {
        let a = s.last();
        let b = t.last();
        assert(s.to_set().contains(a));
        assert(t.contains(a));
        assert(t.to_set().contains(b));
        assert(s.contains(b));
        let i = choose|i: int| 0 <= i < t.len() && t[i] == a;
        let j = choose|j: int| 0 <= j < s.len() && s[j] == b;
        if i < t.len() - 1 {
            assert(less(t[i], t[t.len() - 1]));
        }
        if j < s.len() - 1 {
            assert(less(s[j], s[s.len() - 1]));
        }
        assert(a == b);
        let s0 = s.drop_last();
        let t0 = t.drop_last();
        assert forall|e: A| s0.to_set().contains(e) == t0.to_set().contains(e) by {
            if s0.contains(e) {
                let k = choose|k: int| 0 <= k < s0.len() && s0[k] == e;
                assert(less(s[k], s[s.len() - 1]));
                assert(s.to_set().contains(s[k]));
                assert(t.contains(e));
                let m = choose|m: int| 0 <= m < t.len() && t[m] == e;
                assert(m < t.len() - 1);
                assert(t0[m] == e);
            }
            if t0.contains(e) {
                let k = choose|k: int| 0 <= k < t0.len() && t0[k] == e;
                assert(less(t[k], t[t.len() - 1]));
                assert(t.to_set().contains(t[k]));
                assert(s.contains(e));
                let m = choose|m: int| 0 <= m < s.len() && s[m] == e;
                assert(m < s.len() - 1);
                assert(s0[m] == e);
            }
        }
        assert(s0.to_set() =~= t0.to_set());
        assert(ascending(s0, less)) by {
            assert forall|p: int, q: int| 0 <= p < q < s0.len() implies #[trigger] less(
                s0[p],
                s0[q],
            ) by {
                assert(less(s[p], s[q]));
            }
        }
        assert(ascending(t0, less)) by {
            assert forall|p: int, q: int| 0 <= p < q < t0.len() implies #[trigger] less(
                t0[p],
                t0[q],
            ) by {
                assert(less(t[p], t[q]));
            }
        }
        lemma_ascending_unique(s0, t0, less);
        assert(s =~= s0.push(a));
        assert(t =~= t0.push(b));
    }
}

} // verus!
