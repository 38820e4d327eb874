//! Stable sorting by an integer key, as a specification.

use vstd::prelude::*;

verus! {

/// Whether the keys of a sequence never decrease.
pub open spec fn sorted_by<T>(s: Seq<T>, key: spec_fn(T) -> int) -> bool {
    forall|i: int, j: int| 0 <= i < j < s.len() ==> key(#[trigger] s[i]) <= key(#[trigger] s[j])
}

/// A sequence with one more element, put behind the last one whose key is not greater.
pub open spec fn insert_by<T>(s: Seq<T>, x: T, key: spec_fn(T) -> int) -> Seq<T>
    decreases s.len(),
{
    if s.len() == 0 || key(s.last()) <= key(x) {
        s.push(x)
    } else {
        insert_by(s.drop_last(), x, key).push(s.last())
    }
}

/// A sequence put in order of its keys; elements with equal keys stay in the order they
/// came in.
pub open spec fn sort_by<T>(s: Seq<T>, key: spec_fn(T) -> int) -> Seq<T>
    decreases s.len(),
{
    if s.len() == 0 {
        s
    } else {
        insert_by(sort_by(s.drop_last(), key), s.last(), key)
    }
}

/// The first `n` elements, or all where there are fewer.
pub open spec fn first_of<T>(s: Seq<T>, n: nat) -> Seq<T> {
    if n < s.len() {
        s.take(n as int)
    } else {
        s
    }
}

/// Where an element goes when it is inserted behind the elements that it does not precede.
pub proof fn lemma_insert_position<T>(s: Seq<T>, x: T, key: spec_fn(T) -> int, p: int)
    requires
        0 <= p <= s.len(),
        p == 0 || key(s[p - 1]) <= key(x),
        forall|i: int| p <= i < s.len() ==> key(#[trigger] s[i]) > key(x),
    ensures
        insert_by(s, x, key) == s.insert(p, x),
    decreases s.len(),
{
    if p == s.len() {
        assert(s.insert(p, x) =~= s.push(x));
    } else {
        assert(key(s[s.len() - 1]) > key(x));
        lemma_insert_position(s.drop_last(), x, key, p);
        assert(s.insert(p, x) =~= s.drop_last().insert(p, x).push(s.last()));
    }
}

/// An insertion leaves the rest of the sequence as it was.
pub proof fn lemma_insert_by_at<T>(s: Seq<T>, x: T, key: spec_fn(T) -> int) -> (p: int)
    ensures
        0 <= p <= s.len(),
        forall|i: int| p <= i < s.len() ==> key(#[trigger] s[i]) > key(x),
        insert_by(s, x, key) == s.insert(p, x),
    decreases s.len(),
{
    if s.len() == 0 || key(s.last()) <= key(x) {
        assert(s.insert(s.len() as int, x) =~= s.push(x));
        s.len() as int
    } else {
        let front = s.drop_last();
        let p = lemma_insert_by_at(front, x, key);
        assert(s.insert(p, x) =~= front.insert(p, x).push(s.last()));
        assert forall|i: int| p <= i < s.len() implies key(#[trigger] s[i]) > key(x) by {
            if i < front.len() {
                assert(key(front[i]) > key(x));
            }
        }
        p
    }
}

/// Inserting adds exactly the one element, and keeps a sorted sequence sorted.
pub proof fn lemma_insert_by<T>(s: Seq<T>, x: T, key: spec_fn(T) -> int)
    ensures
        insert_by(s, x, key).len() == s.len() + 1,
        insert_by(s, x, key).to_multiset() == s.to_multiset().insert(x),
        sorted_by(s, key) ==> sorted_by(insert_by(s, x, key), key),
        forall|y: T| #[trigger]
            insert_by(s, x, key).contains(y) <==> s.contains(y) || y == x,
    decreases s.len(),
{
    broadcast use vstd::seq_lib::group_to_multiset_ensures;

    let r = insert_by(s, x, key);
    if s.len() == 0 || key(s.last()) <= key(x) {
        assert(r == s.push(x));
        if sorted_by(s, key) {
            assert forall|i: int, j: int| 0 <= i < j < r.len() implies key(#[trigger] r[i]) <= key(
                #[trigger] r[j],
            ) by {
                if j == s.len() && i < s.len() - 1 {
                    assert(key(s[i]) <= key(s[s.len() - 1]));
                }
            }
        }
        assert forall|y: T| #[trigger] r.contains(y) <==> s.contains(y) || y == x by {
            if s.contains(y) {
                let i = choose|i: int| 0 <= i < s.len() && s[i] == y;
                assert(r[i] == y);
            }
            if y == x {
                assert(r[s.len() as int] == y);
            }
        }
    } else {
        let front = s.drop_last();
        lemma_insert_by(front, x, key);
        let f = insert_by(front, x, key);
        assert(s =~= front.push(s.last()));
        assert(r.to_multiset() =~= s.to_multiset().insert(x));
        if sorted_by(s, key) {
            assert(sorted_by(front, key)) by {
                assert forall|i: int, j: int| 0 <= i < j < front.len() implies key(
                    #[trigger] front[i],
                ) <= key(#[trigger] front[j]) by {
                    assert(key(s[i]) <= key(s[j]));
                }
            }
            assert forall|i: int, j: int| 0 <= i < j < r.len() implies key(#[trigger] r[i]) <= key(
                #[trigger] r[j],
            ) by {
                if j == s.len() {
                    assert(f.contains(r[i])) by {
                        assert(f[i] == r[i]);
                    }
                    if r[i] != x {
                        assert(front.contains(r[i]));
                        let m = choose|m: int| 0 <= m < front.len() && front[m] == r[i];
                        assert(key(s[m]) <= key(s[s.len() - 1]));
                    }
                } else {
                    assert(key(f[i]) <= key(f[j]));
                }
            }
        }
        assert forall|y: T| #[trigger] r.contains(y) <==> s.contains(y) || y == x by {
            if s.contains(y) {
                let i = choose|i: int| 0 <= i < s.len() && s[i] == y;
                if i < front.len() {
                    assert(front[i] == y);
                    assert(f.contains(y));
                    let m = choose|m: int| 0 <= m < f.len() && f[m] == y;
                    assert(r[m] == y);
                } else {
                    assert(r[s.len() as int] == y);
                }
            }
            if y == x {
                assert(f.contains(y));
                let m = choose|m: int| 0 <= m < f.len() && f[m] == y;
                assert(r[m] == y);
            }
            if r.contains(y) {
                let m = choose|m: int| 0 <= m < r.len() && r[m] == y;
                if m < f.len() {
                    assert(f[m] == y);
                    assert(f.contains(y));
                    if y != x {
                        let i = choose|i: int| 0 <= i < front.len() && front[i] == y;
                        assert(s[i] == y);
                    }
                } else {
                    assert(s[s.len() - 1] == y);
                }
            }
        }
    }
}

/// Sorting yields the same elements, in order.
pub proof fn lemma_sort_by<T>(s: Seq<T>, key: spec_fn(T) -> int)
    ensures
        sort_by(s, key).len() == s.len(),
        sort_by(s, key).to_multiset() == s.to_multiset(),
        sorted_by(sort_by(s, key), key),
        forall|y: T| #[trigger] sort_by(s, key).contains(y) <==> s.contains(y),
    decreases s.len(),
{
    broadcast use vstd::seq_lib::group_to_multiset_ensures;

    if s.len() > 0 {
        let front = s.drop_last();
        lemma_sort_by(front, key);
        lemma_insert_by(sort_by(front, key), s.last(), key);
        assert(s =~= front.push(s.last()));
        assert forall|y: T| #[trigger] sort_by(s, key).contains(y) <==> s.contains(y) by {
            if s.contains(y) {
                let i = choose|i: int| 0 <= i < s.len() && s[i] == y;
                if i < front.len() {
                    assert(front[i] == y);
                    assert(front.contains(y));
                    assert(sort_by(front, key).contains(y));
                }
            }
            if sort_by(s, key).contains(y) && y != s.last() {
                assert(sort_by(front, key).contains(y));
                assert(front.contains(y));
                let i = choose|i: int| 0 <= i < front.len() && front[i] == y;
                assert(s[i] == y);
            }
        }
    }
}

/// A sorted sequence is left as it is.
pub proof fn lemma_sort_by_sorted<T>(s: Seq<T>, key: spec_fn(T) -> int)
    requires
        sorted_by(s, key),
    ensures
        sort_by(s, key) == s,
    decreases s.len(),
{
    if s.len() > 0 {
        let front = s.drop_last();
        assert forall|i: int, j: int| 0 <= i < j < front.len() implies key(#[trigger] front[i])
            <= key(#[trigger] front[j]) by {
            assert(key(s[i]) <= key(s[j]));
        }
        lemma_sort_by_sorted(front, key);
        if front.len() > 0 {
            assert(key(s[s.len() - 2]) <= key(s[s.len() - 1]));
        }
        assert(s =~= front.push(s.last()));
    }
}

/// Sorting repeats nothing that did not occur twice.
pub proof fn lemma_sort_by_no_duplicates<T>(s: Seq<T>, key: spec_fn(T) -> int)
    requires
        s.no_duplicates(),
    ensures
        sort_by(s, key).no_duplicates(),
    decreases s.len(),
{
    if s.len() > 0 {
        let front = s.drop_last();
        lemma_sort_by_no_duplicates(front, key);
        lemma_sort_by(front, key);
        let t = sort_by(front, key);
        let r = sort_by(s, key);
        let p = lemma_insert_by_at(t, s.last(), key);
        assert(!t.contains(s.last())) by {
            if t.contains(s.last()) {
                assert(front.contains(s.last()));
                let i = choose|i: int| 0 <= i < front.len() && front[i] == s.last();
                assert(s[i] == s[s.len() - 1]);
            }
        }
        assert forall|i: int, j: int| 0 <= i < r.len() && 0 <= j < r.len() && i != j implies r[i]
            != r[j] by {
            let a = if i < p { i } else { i - 1 };
            let b = if j < p { j } else { j - 1 };
            if i != p && j != p {
                assert(t[a] != t[b]);
            } else if i == p {
                assert(t.contains(t[b]));
            } else {
                assert(t.contains(t[a]));
            }
        }
    }
}

proof fn lemma_insert_by_take<T>(s: Seq<T>, x: T, key: spec_fn(T) -> int, k: int)
    requires
        sorted_by(s, key),
        0 <= k <= s.len(),
    ensures
        insert_by(s, x, key).take(k) == insert_by(s.take(k), x, key).take(k),
    decreases s.len(),
{
    if k == s.len() {
        assert(s.take(k) =~= s);
    } else {
        let front = s.drop_last();
        assert forall|i: int, j: int| 0 <= i < j < front.len() implies key(#[trigger] front[i])
            <= key(#[trigger] front[j]) by {
            assert(key(s[i]) <= key(s[j]));
        }
        lemma_insert_by_take(front, x, key, k);
        assert(front.take(k) =~= s.take(k));
        lemma_insert_by(front, x, key);
        lemma_insert_by(s.take(k), x, key);
        if key(s.last()) <= key(x) {
            assert(insert_by(s, x, key) == s.push(x));
            assert(insert_by(s, x, key).take(k) =~= s.take(k));
            if k > 0 {
                assert(key(s[k - 1]) <= key(s[s.len() - 1]));
                assert(s.take(k).last() == s[k - 1]);
            }
            assert(insert_by(s.take(k), x, key) == s.take(k).push(x));
            assert(insert_by(s.take(k), x, key).take(k) =~= s.take(k));
        } else {
            assert(insert_by(s, x, key).take(k) =~= insert_by(front, x, key).take(k));
        }
    }
}

/// Of a sorted sequence only the first `n` elements decide which `n` come first after an
/// insertion.
pub proof fn lemma_first_of_insert<T>(s: Seq<T>, x: T, key: spec_fn(T) -> int, n: nat)
    requires
        sorted_by(s, key),
    ensures
        first_of(insert_by(s, x, key), n) == first_of(insert_by(first_of(s, n), x, key), n),
        insert_by(first_of(s, n), x, key).len() <= n + 1,
{
    lemma_insert_by(s, x, key);
    lemma_insert_by(first_of(s, n), x, key);
    if n < s.len() {
        lemma_insert_by_take(s, x, key, n as int);
    }
}

/// Cutting a sequence to its `n` least elements before more are added does not change which
/// `n` are the least in the end.
pub proof fn lemma_first_of_sorted_sum<T>(s: Seq<T>, more: Seq<T>, key: spec_fn(T) -> int, n: nat)
    ensures
        first_of(sort_by(first_of(sort_by(s, key), n) + more, key), n) == first_of(
            sort_by(s + more, key),
            n,
        ),
    decreases more.len(),
{
    let cut = first_of(sort_by(s, key), n);
    lemma_sort_by(s, key);
    if more.len() == 0 {
        assert(cut + more =~= cut);
        assert(s + more =~= s);
        assert forall|i: int, j: int| 0 <= i < j < cut.len() implies key(#[trigger] cut[i]) <= key(
            #[trigger] cut[j],
        ) by {
            assert(key(sort_by(s, key)[i]) <= key(sort_by(s, key)[j]));
        }
        lemma_sort_by_sorted(cut, key);
        assert(first_of(cut, n) =~= cut);
    } else {
        let front = more.drop_last();
        let x = more.last();
        lemma_first_of_sorted_sum(s, front, key, n);
        assert((cut + more).drop_last() =~= cut + front);
        assert((s + more).drop_last() =~= s + front);
        lemma_sort_by(cut + front, key);
        lemma_sort_by(s + front, key);
        lemma_first_of_insert(sort_by(cut + front, key), x, key, n);
        lemma_first_of_insert(sort_by(s + front, key), x, key, n);
    }
}

/// Sorting is stable: what was in order of a second key stays so among elements whose keys are
/// equal.
pub proof fn lemma_sort_by_stable<T>(s: Seq<T>, key: spec_fn(T) -> int, second: spec_fn(T) -> int)
    requires
        sorted_by(s, second),
    ensures
        forall|i: int, j: int|
            0 <= i < j < s.len() && key(sort_by(s, key)[i]) == key(sort_by(s, key)[j]) ==> second(
                #[trigger] sort_by(s, key)[i],
            ) <= second(#[trigger] sort_by(s, key)[j]),
    decreases s.len(),
{
    lemma_sort_by(s, key);
    if s.len() > 0 {
        let front = s.drop_last();
        let x = s.last();
        assert forall|i: int, j: int| 0 <= i < j < front.len() implies second(#[trigger] front[i])
            <= second(#[trigger] front[j]) by {
            assert(second(s[i]) <= second(s[j]));
        }
        lemma_sort_by_stable(front, key, second);
        lemma_sort_by(front, key);
        let t = sort_by(front, key);
        let r = sort_by(s, key);
        let p = lemma_insert_by_at(t, x, key);
        assert forall|m: int| 0 <= m < t.len() implies second(#[trigger] t[m]) <= second(x) by {
            assert(t.contains(t[m]));
            assert(front.contains(t[m]));
            let i = choose|i: int| 0 <= i < front.len() && front[i] == t[m];
            assert(second(s[i]) <= second(s[s.len() - 1]));
        }
        assert forall|i: int, j: int| 0 <= i < j < r.len() && key(r[i]) == key(r[j]) implies second(
            #[trigger] r[i],
        ) <= second(#[trigger] r[j]) by {
            let a = if i < p { i } else { i - 1 };
            let b = if j < p { j } else { j - 1 };
            if i != p && j != p {
                assert(r[i] == t[a] && r[j] == t[b]);
            } else if j == p {
                assert(r[i] == t[a]);
            } else {
                assert(r[j] == t[b]);
            }
        }
    }
}

/// Where everything satisfies a condition, selecting by it changes nothing.
pub proof fn lemma_filter_all<T>(s: Seq<T>, pred: spec_fn(T) -> bool)
    requires
        forall|i: int| 0 <= i < s.len() ==> pred(#[trigger] s[i]),
    ensures
        s.filter(pred) == s,
    decreases s.len(),
{
    reveal(Seq::filter);
    if s.len() > 0 {
        let front = s.drop_last();
        assert forall|i: int| 0 <= i < front.len() implies pred(#[trigger] front[i]) by {
            assert(front[i] == s[i]);
        }
        lemma_filter_all(front, pred);
        assert(pred(s[s.len() - 1]));
        assert(s =~= front.push(s.last()));
    }
}

/// Where a single element fails a condition, selecting by it removes that element.
pub proof fn lemma_filter_one<T>(s: Seq<T>, pred: spec_fn(T) -> bool, p: int)
    requires
        0 <= p < s.len(),
        !pred(s[p]),
        forall|i: int| 0 <= i < s.len() && i != p ==> pred(#[trigger] s[i]),
    ensures
        s.filter(pred) == s.remove(p),
    decreases s.len(),
{
    reveal(Seq::filter);
    let front = s.drop_last();
    if p == s.len() - 1 {
        assert forall|i: int| 0 <= i < front.len() implies pred(#[trigger] front[i]) by {
            assert(front[i] == s[i]);
        }
        lemma_filter_all(front, pred);
        assert(s.remove(p) =~= front);
    } else {
        assert forall|i: int| 0 <= i < front.len() && i != p implies pred(#[trigger] front[i]) by {
            assert(front[i] == s[i]);
        }
        lemma_filter_one(front, pred, p);
        assert(pred(s[s.len() - 1]));
        assert(s.remove(p) =~= front.remove(p).push(s.last()));
    }
}

} // verus!
