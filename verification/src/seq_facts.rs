//! Facts about sequences.

use vstd::prelude::*;

verus! {

/// One more element of a sequence.
pub proof fn lemma_take_contains<T>(s: Seq<T>, k: int, x: T)
    requires
        0 <= k < s.len(),
    ensures
        s.take(k + 1).contains(x) <==> s.take(k).contains(x) || s[k] == x,
{
    let a = s.take(k + 1);
    let b = s.take(k);
    if b.contains(x) {
        let j = choose|j: int| 0 <= j < b.len() && b[j] == x;
        assert(a[j] == x);
    }
    if s[k] == x {
        assert(a[k] == x);
    }
    if a.contains(x) && s[k] != x {
        let j = choose|j: int| 0 <= j < a.len() && a[j] == x;
        assert(b[j] == x);
    }
}

/// The elements after one more.
pub proof fn lemma_take_set<T>(s: Seq<T>, i: int)
    requires
        0 <= i < s.len(),
    ensures
        s.take(i + 1).to_set() == s.take(i).to_set().insert(s[i]),
{
    let a = s.take(i + 1);
    let b = s.take(i);
    assert forall|x: T| a.contains(x) <==> (b.contains(x) || x == s[i]) by {
        lemma_take_contains(s, i, x);
    }
    assert(a.to_set() =~= b.to_set().insert(s[i]));
}

/// A new element at the end of a sequence.
pub proof fn lemma_push_contains<T>(s: Seq<T>, x: T)
    ensures
        forall|y: T| #[trigger] s.push(x).contains(y) <==> s.contains(y) || y == x,
        s.no_duplicates() && !s.contains(x) ==> s.push(x).no_duplicates(),
{
    let t = s.push(x);
    assert forall|y: T| #[trigger] t.contains(y) <==> s.contains(y) || y == x by {
        if s.contains(y) {
            let j = choose|j: int| 0 <= j < s.len() && s[j] == y;
            assert(t[j] == y);
        }
        if y == x {
            assert(t[s.len() as int] == y);
        }
    }
}

/// A rearranged sequence holds the same elements, and none twice if none was there twice.
pub proof fn lemma_same_elements<T>(a: Seq<T>, b: Seq<T>)
    requires
        a.to_multiset() == b.to_multiset(),
    ensures
        a.len() == b.len(),
        forall|x: T| a.contains(x) <==> b.contains(x),
        a.no_duplicates() ==> b.no_duplicates(),
{
    a.to_multiset_ensures();
    b.to_multiset_ensures();
    assert forall|x: T| a.contains(x) <==> b.contains(x) by {
        assert(a.contains(x) <==> a.to_multiset().count(x) > 0);
        assert(b.contains(x) <==> b.to_multiset().count(x) > 0);
    }
    if a.no_duplicates() {
        a.lemma_multiset_has_no_duplicates();
        b.lemma_multiset_has_no_duplicates_conv();
    }
}

/// What is made of the elements of a rearranged sequence is rearranged.
pub proof fn lemma_same_elements_mapped<T, U>(a: Seq<T>, b: Seq<T>, f: spec_fn(T) -> U)
    requires
        a.to_multiset() == b.to_multiset(),
    ensures
        a.map_values(f).to_multiset() == b.map_values(f).to_multiset(),
    decreases a.len(),
{
    lemma_same_elements(a, b);
    if a.len() == 0 {
        assert(a =~= b);
    } else {
        let rest = a.drop_last();
        let x = a.last();
        assert(a[a.len() - 1] == x);
        assert(b.contains(x));
        let j = choose|j: int| 0 <= j < b.len() && b[j] == x;
        let fa = a.map_values(f);
        let fb = b.map_values(f);
        let frest = rest.map_values(f);
        a.to_multiset_ensures();
        b.to_multiset_ensures();
        fb.to_multiset_ensures();
        frest.to_multiset_ensures();
        rest.to_multiset_ensures();
        assert(rest.push(x) =~= a);
        assert(rest.to_multiset() =~= b.remove(j).to_multiset());
        lemma_same_elements_mapped(rest, b.remove(j), f);
        assert(b.remove(j).map_values(f) =~= fb.remove(j));
        assert(frest.push(f(x)) =~= fa);
        assert(fb.contains(fb[j]));
        assert(fb.to_multiset().count(f(x)) > 0);
        assert(fa.to_multiset() =~= fb.to_multiset());
    }
}

/// Different numbers below `n` go to different numbers below `m`.
pub open spec fn is_injection(f: spec_fn(int) -> int, n: int, m: int) -> bool {
    &&& forall|i: int| 0 <= i < n ==> 0 <= #[trigger] f(i) < m
    &&& forall|i: int, j: int| 0 <= i < j < n ==> #[trigger] f(i) != #[trigger] f(j)
}

/// If each element of a sequence has a place of its own in another, none is there more often.
pub proof fn lemma_injected<T>(a: Seq<T>, b: Seq<T>, f: spec_fn(int) -> int)
    requires
        is_injection(f, a.len() as int, b.len() as int),
        forall|i: int| 0 <= i < a.len() ==> a[i] == b[#[trigger] f(i)],
    ensures
        a.len() <= b.len(),
        forall|x: T| #[trigger] a.to_multiset().count(x) <= b.to_multiset().count(x),
    decreases a.len(),
{
    a.to_multiset_ensures();
    b.to_multiset_ensures();
    if a.len() > 0 {
        let n = a.len() - 1;
        let rest = a.drop_last();
        let at = f(n);
        let less = b.remove(at);
        let g = |i: int| if f(i) < at { f(i) } else { f(i) - 1 };
        assert forall|i: int| 0 <= i < n implies 0 <= #[trigger] g(i) < less.len() && rest[i]
            == less[g(i)] by {
            assert(f(i) != f(n));
            assert(a[i] == b[f(i)]);
        }
        assert forall|i: int, j: int| 0 <= i < j < n implies #[trigger] g(i) != #[trigger] g(j) by {
            assert(f(i) != f(j));
            assert(f(i) != f(n));
            assert(f(j) != f(n));
        }
        lemma_injected(rest, less, g);
        rest.to_multiset_ensures();
        less.to_multiset_ensures();
        assert(rest.push(a[n]) =~= a);
        assert(a[n] == b[at]);
        assert forall|x: T| #[trigger] a.to_multiset().count(x) <= b.to_multiset().count(x) by {
            assert(rest.to_multiset().count(x) <= less.to_multiset().count(x));
            assert(a.to_multiset() =~= rest.to_multiset().insert(a[n]));
            assert(less.to_multiset() =~= b.to_multiset().remove(b[at]));
            assert(b.contains(b[at]));
        }
    }
}

/// How a sequence was rearranged: the element at `i` went to place `there[i]`, and the one that is
/// now at `j` came from place `back[j]`.
pub open spec fn is_rearrangement<T>(
    a: Seq<T>,
    b: Seq<T>,
    there: Seq<int>,
    back: Seq<int>,
) -> bool {
    &&& there.len() == a.len()
    &&& back.len() == b.len()
    &&& forall|i: int|
        0 <= i < a.len() ==> {
            &&& 0 <= #[trigger] there[i] < b.len()
            &&& back[there[i]] == i
            &&& a[i] == b[there[i]]
        }
    &&& forall|j: int|
        0 <= j < b.len() ==> {
            &&& 0 <= #[trigger] back[j] < a.len()
            &&& there[back[j]] == j
        }
}

/// Sequences with the same elements, each as often, are rearrangements of each other.
pub proof fn lemma_rearranged<T>(a: Seq<T>, b: Seq<T>) -> (w: (Seq<int>, Seq<int>))
    requires
        a.to_multiset() == b.to_multiset(),
    ensures
        is_rearrangement(a, b, w.0, w.1),
    decreases a.len(),
{
    lemma_same_elements(a, b);
    if a.len() == 0 {
        (Seq::empty(), Seq::empty())
    } else {
        let n = a.len() - 1;
        let rest = a.drop_last();
        assert(a[n] == a.last());
        assert(b.contains(a[n]));
        let at = choose|j: int| 0 <= j < b.len() && b[j] == a[n];
        let less = b.remove(at);
        a.to_multiset_ensures();
        b.to_multiset_ensures();
        rest.to_multiset_ensures();
        less.to_multiset_ensures();
        assert(rest.push(a[n]) =~= a);
        assert(rest.to_multiset() =~= less.to_multiset());
        let (there0, back0) = lemma_rearranged(rest, less);
        let there = Seq::new(
            a.len(),
            |i: int|
                if i == n {
                    at
                } else if there0[i] < at {
                    there0[i]
                } else {
                    there0[i] + 1
                },
        );
        let back = Seq::new(
            b.len(),
            |j: int|
                if j == at {
                    n
                } else if j < at {
                    back0[j]
                } else {
                    back0[j - 1]
                },
        );
        assert forall|i: int| 0 <= i < a.len() implies {
            &&& 0 <= #[trigger] there[i] < b.len()
            &&& back[there[i]] == i
            &&& a[i] == b[there[i]]
        } by {
            if i < n {
                assert(0 <= there0[i] < less.len());
                assert(back0[there0[i]] == i);
                assert(rest[i] == less[there0[i]]);
            }
        }
        assert forall|j: int| 0 <= j < b.len() implies {
            &&& 0 <= #[trigger] back[j] < a.len()
            &&& there[back[j]] == j
        } by {
            if j != at {
                let k = if j < at { j } else { j - 1 };
                assert(0 <= back0[k] < rest.len());
                assert(there0[back0[k]] == k);
            }
        }
        (there, back)
    }
}

} // verus!
