//! Stable insertion order and first appearances, used to state sorting and
//! numbering results.
use vstd::prelude::*;

verus! {

/// Where a stable insertion puts `x` into `s`: before the first element
/// that `x` must precede.
pub open spec fn insert_pos_by<T>(s: Seq<T>, x: T, before: spec_fn(T, T) -> bool) -> int
    decreases s.len(),
{
    if s.len() == 0 {
        0
    } else if before(x, s[0]) {
        0
    } else {
        1 + insert_pos_by(s.drop_first(), x, before)
    }
}

/// The stable sort of `s` by the strict order `before`: elements that do
/// not precede one another keep their order.
pub open spec fn stable_sort<T>(s: Seq<T>, before: spec_fn(T, T) -> bool) -> Seq<T>
    decreases s.len(),
{
    if s.len() == 0 {
        Seq::empty()
    } else {
        let sorted = stable_sort(s.drop_last(), before);
        sorted.insert(insert_pos_by(sorted, s.last(), before), s.last())
    }
}

pub proof fn lemma_insert_pos_by<T>(s: Seq<T>, x: T, before: spec_fn(T, T) -> bool, p: int)
    requires
        0 <= p <= s.len(),
        forall|q: int| 0 <= q < p ==> !before(x, #[trigger] s[q]),
        p == s.len() || before(x, s[p]),
    ensures
        insert_pos_by(s, x, before) == p,
    decreases p,
{
    if p > 0 {
        assert(!before(x, s[0]));
        assert forall|q: int| 0 <= q < p - 1 implies !before(x, #[trigger] s.drop_first()[q]) by {
            assert(s.drop_first()[q] == s[q + 1]);
        }
        if p < s.len() {
            assert(s.drop_first()[p - 1] == s[p]);
        }
        lemma_insert_pos_by(s.drop_first(), x, before, p - 1);
    }
}

pub proof fn lemma_stable_sort_len<T>(s: Seq<T>, before: spec_fn(T, T) -> bool)
    ensures
        stable_sort(s, before).len() == s.len(),
        0 <= insert_pos_by(stable_sort(s, before), s.last(), before),
    decreases s.len(),
{
    if s.len() > 0 {
        lemma_stable_sort_len(s.drop_last(), before);
        lemma_insert_pos_range(stable_sort(s.drop_last(), before), s.last(), before);
    }
    lemma_insert_pos_range(stable_sort(s, before), s.last(), before);
}

pub proof fn lemma_insert_pos_range<T>(s: Seq<T>, x: T, before: spec_fn(T, T) -> bool)
    ensures
        0 <= insert_pos_by(s, x, before) <= s.len(),
    decreases s.len(),
{
    if s.len() > 0 {
        lemma_insert_pos_range(s.drop_first(), x, before);
    }
}

/// Sorting keeps the elements: each element of the result is one of `s`.
pub proof fn lemma_stable_sort_members<T>(s: Seq<T>, before: spec_fn(T, T) -> bool)
    ensures
        stable_sort(s, before).len() == s.len(),
        forall|i: int|
            0 <= i < stable_sort(s, before).len() ==> s.contains(#[trigger] stable_sort(s, before)[i]),
    decreases s.len(),
{
    if s.len() > 0 {
        let p = s.drop_last();
        lemma_stable_sort_members(p, before);
        let sorted = stable_sort(p, before);
        let pos = insert_pos_by(sorted, s.last(), before);
        lemma_insert_pos_range(sorted, s.last(), before);
        let r = sorted.insert(pos, s.last());
        assert forall|i: int| 0 <= i < r.len() implies s.contains(#[trigger] r[i]) by {
            if i < pos {
                assert(r[i] == sorted[i]);
                assert(p.contains(sorted[i]));
                let j = choose|j: int| 0 <= j < p.len() && p[j] == sorted[i];
                assert(s[j] == r[i]);
            } else if i == pos {
                assert(s[s.len() - 1] == r[i]);
            } else {
                assert(r[i] == sorted[i - 1]);
                assert(p.contains(sorted[i - 1]));
                let j = choose|j: int| 0 <= j < p.len() && p[j] == sorted[i - 1];
                assert(s[j] == r[i]);
            }
        }
    }
}

/// The distinct elements of `s` in the order of their first appearance.
pub open spec fn first_appearances<T>(s: Seq<T>) -> Seq<T>
    decreases s.len(),
{
    if s.len() == 0 {
        Seq::empty()
    } else {
        let d = first_appearances(s.drop_last());
        if d.contains(s.last()) {
            d
        } else {
            d.push(s.last())
        }
    }
}

/// Position of the first `x` in `s` (or `s.len()` when absent).
pub open spec fn index_in<T>(s: Seq<T>, x: T) -> int
    decreases s.len(),
{
    if s.len() == 0 {
        0
    } else if s[0] == x {
        0
    } else {
        1 + index_in(s.drop_first(), x)
    }
}

pub proof fn lemma_index_in<T>(s: Seq<T>, x: T, k: int)
    requires
        0 <= k < s.len(),
        s[k] == x,
        forall|q: int| 0 <= q < k ==> s[q] != x,
    ensures
        index_in(s, x) == k,
    decreases k,
{
    if k > 0 {
        assert(s.drop_first()[k - 1] == s[k]);
        assert forall|q: int| 0 <= q < k - 1 implies s.drop_first()[q] != x by {
            assert(s.drop_first()[q] == s[q + 1]);
        }
        lemma_index_in(s.drop_first(), x, k - 1);
    }
}

pub proof fn lemma_first_appearances_no_dup<T>(s: Seq<T>)
    ensures
        first_appearances(s).no_duplicates(),
        forall|x: T| first_appearances(s).contains(x) <==> s.contains(x),
    decreases s.len(),
{
    if s.len() > 0 {
        lemma_first_appearances_no_dup(s.drop_last());
        let d = first_appearances(s.drop_last());
        let l = s.last();
        let p = s.drop_last();
        assert forall|x: T| s.contains(x) <==> (p.contains(x) || x == l) by {
            if s.contains(x) {
                let i = choose|i: int| 0 <= i < s.len() && s[i] == x;
                if i < s.len() - 1 {
                    assert(p[i] == x);
                }
            }
            if p.contains(x) {
                let i = choose|i: int| 0 <= i < p.len() && p[i] == x;
                assert(s[i] == x);
            }
            if x == l {
                assert(s[s.len() - 1] == x);
            }
        }
        if d.contains(l) {
            assert(first_appearances(s) == d);
        } else {
            assert(first_appearances(s) == d.push(l));
            assert forall|x: T| d.push(l).contains(x) <==> (d.contains(x) || x == l) by {
                if d.push(l).contains(x) {
                    let i = choose|i: int| 0 <= i < d.push(l).len() && d.push(l)[i] == x;
                    if i < d.len() {
                        assert(d[i] == x);
                    }
                }
                if d.contains(x) {
                    let i = choose|i: int| 0 <= i < d.len() && d[i] == x;
                    assert(d.push(l)[i] == x);
                }
                if x == l {
                    assert(d.push(l)[d.len() as int] == x);
                }
            }
        }
    }
}

pub proof fn lemma_first_appearances_prefix<T>(s: Seq<T>, i: int, j: int)
    requires
        0 <= i <= j <= s.len(),
    ensures
        first_appearances(s.take(i)).len() <= first_appearances(s.take(j)).len(),
        first_appearances(s.take(j)).take(first_appearances(s.take(i)).len() as int)
            == first_appearances(s.take(i)),
    decreases j - i,
{
    if i < j {
        lemma_first_appearances_prefix(s, i, j - 1);
        assert(s.take(j).drop_last() =~= s.take(j - 1));
        let a = first_appearances(s.take(i));
        let b = first_appearances(s.take(j - 1));
        let c = first_appearances(s.take(j));
        assert(c.take(a.len() as int) =~= a) by {
            assert(b.take(a.len() as int) == a);
            if c != b {
                assert(c == b.push(s.take(j).last()));
                assert forall|q: int| 0 <= q < a.len() implies c[q] == a[q] by {
                    assert(c[q] == b[q]);
                    assert(b.take(a.len() as int)[q] == b[q]);
                }
            }
        }
    } else {
        assert(first_appearances(s.take(i)).take(first_appearances(s.take(i)).len() as int)
            =~= first_appearances(s.take(i)));
    }
}


/// Where `insert_pos_by` puts `x`: after every element that `x` does not
/// precede, at an element it precedes (or at the end).
pub proof fn lemma_insert_pos_props<T>(s: Seq<T>, x: T, before: spec_fn(T, T) -> bool)
    ensures
        0 <= insert_pos_by(s, x, before) <= s.len(),
        forall|q: int| 0 <= q < insert_pos_by(s, x, before) ==> !before(x, #[trigger] s[q]),
        insert_pos_by(s, x, before) < s.len() ==> before(x, s[insert_pos_by(s, x, before)]),
    decreases s.len(),
{
    if s.len() > 0 && !before(x, s[0]) {
        let t = s.drop_first();
        lemma_insert_pos_props(t, x, before);
        let p = insert_pos_by(t, x, before);
        assert forall|q: int| 0 <= q < p + 1 implies !before(x, #[trigger] s[q]) by {
            if q > 0 {
                assert(s[q] == t[q - 1]);
            }
        }
        if p < t.len() {
            assert(t[p] == s[p + 1]);
        }
    }
}


// ---------------------------------------------------------------------------
// Sorting by a strict total order
// ---------------------------------------------------------------------------

/// No element of `s` precedes one placed before it.
pub open spec fn sorted_by<T>(s: Seq<T>, before: spec_fn(T, T) -> bool) -> bool {
    forall|i: int, j: int| 0 <= i < j < s.len() ==> !before(#[trigger] s[j], #[trigger] s[i])
}

/// `before` is irreflexive and transitive.
pub open spec fn strict_order<T>(before: spec_fn(T, T) -> bool) -> bool {
    &&& forall|a: T| !#[trigger] before(a, a)
    &&& forall|a: T, b: T, c: T| #[trigger] before(a, b) && #[trigger] before(b, c) ==> before(a, c)
}

/// Of two different values, one precedes the other.
pub open spec fn total_order<T>(before: spec_fn(T, T) -> bool) -> bool {
    forall|a: T, b: T| a != b ==> #[trigger] before(a, b) || before(b, a)
}

/// Stable sorting by a strict order gives a sorted sequence.
pub proof fn lemma_stable_sort_sorted<T>(s: Seq<T>, before: spec_fn(T, T) -> bool)
    requires
        strict_order(before),
    ensures
        sorted_by(stable_sort(s, before), before),
    decreases s.len(),
{
    if s.len() > 0 {
        let p = s.drop_last();
        lemma_stable_sort_sorted(p, before);
        let sorted = stable_sort(p, before);
        let x = s.last();
        let pos = insert_pos_by(sorted, x, before);
        lemma_insert_pos_props(sorted, x, before);
        let r = sorted.insert(pos, x);
        assert forall|i: int, j: int| 0 <= i < j < r.len() implies !before(#[trigger] r[j], #[trigger] r[i]) by {
            if j < pos {
                assert(r[i] == sorted[i] && r[j] == sorted[j]);
            } else if j == pos {
                assert(r[i] == sorted[i] && r[j] == x);
            } else if i == pos {
                assert(r[i] == x && r[j] == sorted[j - 1]);
                assert(before(x, sorted[pos]));
                if j - 1 > pos {
                    assert(!before(sorted[j - 1], sorted[pos]));
                }
                if before(sorted[j - 1], x) {
                    assert(before(sorted[j - 1], sorted[pos]));
                }
            } else if i < pos {
                assert(r[i] == sorted[i] && r[j] == sorted[j - 1]);
            } else {
                assert(r[i] == sorted[i - 1] && r[j] == sorted[j - 1]);
            }
        }
    }
}

/// Sorting keeps every element as often as it occurs.
pub proof fn lemma_stable_sort_multiset<T>(s: Seq<T>, before: spec_fn(T, T) -> bool)
    ensures
        stable_sort(s, before).to_multiset() == s.to_multiset(),
    decreases s.len(),
{
    broadcast use vstd::seq_lib::group_to_multiset_ensures;

    if s.len() > 0 {
        let p = s.drop_last();
        lemma_stable_sort_multiset(p, before);
        let sorted = stable_sort(p, before);
        lemma_insert_pos_range(sorted, s.last(), before);
        let pos = insert_pos_by(sorted, s.last(), before);
        vstd::seq_lib::to_multiset_insert(sorted, pos, s.last());
        assert(s =~= p.push(s.last()));
    }
}

/// Two sequences sorted by a strict total order that hold the same
/// elements, each as often, are equal.
pub proof fn lemma_sorted_unique<T>(a: Seq<T>, b: Seq<T>, before: spec_fn(T, T) -> bool)
    requires
        strict_order(before),
        total_order(before),
        sorted_by(a, before),
        sorted_by(b, before),
        a.to_multiset() == b.to_multiset(),
    ensures
        a == b,
    decreases a.len(),
{
    broadcast use vstd::seq_lib::group_to_multiset_ensures;

    vstd::seq_lib::to_multiset_len(a);
    vstd::seq_lib::to_multiset_len(b);
    assert(a.len() == b.len());
    if a.len() > 0 {
        let x = a[0];
        let y = b[0];
        if x != y {
            assert(a.contains(x));
            assert(b.to_multiset().count(x) > 0);
            assert(b.contains(x));
            let k = choose|k: int| 0 <= k < b.len() && b[k] == x;
            assert(k > 0);
            assert(!before(b[k], b[0]));
            assert(b.contains(y));
            assert(a.to_multiset().count(y) > 0);
            assert(a.contains(y));
            let k2 = choose|k2: int| 0 <= k2 < a.len() && a[k2] == y;
            assert(k2 > 0);
            assert(!before(a[k2], a[0]));
            assert(before(x, y) || before(y, x));
        }
        assert(a.remove(0) =~= a.drop_first());
        assert(b.remove(0) =~= b.drop_first());
        let a1 = a.drop_first();
        let b1 = b.drop_first();
        assert(sorted_by(a1, before)) by {
            assert forall|i: int, j: int| 0 <= i < j < a1.len() implies !before(#[trigger] a1[j], #[trigger] a1[i]) by {
                assert(a1[i] == a[i + 1] && a1[j] == a[j + 1]);
            }
        }
        assert(sorted_by(b1, before)) by {
            assert forall|i: int, j: int| 0 <= i < j < b1.len() implies !before(#[trigger] b1[j], #[trigger] b1[i]) by {
                assert(b1[i] == b[i + 1] && b1[j] == b[j + 1]);
            }
        }
        lemma_sorted_unique(a1, b1, before);
        assert(a =~= b) by {
            assert forall|i: int| 0 <= i < a.len() implies a[i] == b[i] by {
                if i > 0 {
                    assert(a[i] == a1[i - 1] && b[i] == b1[i - 1]);
                }
            }
        }
    }
}

/// Mapping two sequences that hold the same elements gives two that hold
/// the same images.
pub proof fn lemma_map_multiset<A, B>(s1: Seq<A>, s2: Seq<A>, f: spec_fn(A) -> B)
    requires
        s1.to_multiset() == s2.to_multiset(),
    ensures
        s1.map_values(f).to_multiset() == s2.map_values(f).to_multiset(),
    decreases s1.len(),
{
    broadcast use vstd::seq_lib::group_to_multiset_ensures;

    vstd::seq_lib::to_multiset_len(s1);
    vstd::seq_lib::to_multiset_len(s2);
    assert(s1.len() == s2.len());
    if s1.len() == 0 {
        assert(s1.map_values(f) =~= Seq::<B>::empty());
        assert(s2.map_values(f) =~= Seq::<B>::empty());
    } else {
        let x = s1.last();
        let p1 = s1.drop_last();
        assert(s1 =~= p1.push(x));
        assert(s1.contains(x));
        assert(s2.to_multiset().count(x) > 0);
        assert(s2.contains(x));
        let j = choose|j: int| 0 <= j < s2.len() && s2[j] == x;
        let p2 = s2.remove(j);
        assert(p1.to_multiset() == s1.to_multiset().remove(x));
        assert(p2.to_multiset() == s2.to_multiset().remove(x));
        lemma_map_multiset(p1, p2, f);
        assert(s1.map_values(f) =~= p1.map_values(f).push(f(x)));
        assert(s2.map_values(f) =~= p2.map_values(f).insert(j, f(x)));
        vstd::seq_lib::to_multiset_insert(p2.map_values(f), j, f(x));
    }
}

} // verus!
