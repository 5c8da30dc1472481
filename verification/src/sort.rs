//! Merge sort.

use vstd::prelude::*;

verus! {

/// A type whose values are ranked by a total preorder.
pub trait Ranked: Sized {
    /// Whether this value may stand before `other`.
    spec fn le(self, other: Self) -> bool;

    proof fn lemma_total(a: Self, b: Self)
        ensures
            a.le(b) || b.le(a),
    ;

    proof fn lemma_transitive(a: Self, b: Self, c: Self)
        requires
            a.le(b),
            b.le(c),
        ensures
            a.le(c),
    ;

    fn at_most(&self, other: &Self) -> (r: bool)
        ensures
            r == self.le(*other),
    ;
}

/// No value stands after one that ranks below it.
pub open spec fn ascending<T: Ranked>(s: Seq<T>) -> bool {
    forall|i: int, j: int| 0 <= i < j < s.len() ==> (#[trigger] s[i]).le(#[trigger] s[j])
}

/// Chunk coordinates rank by `cx`, then by `cy`.
impl Ranked for (i32, i32) {
    open spec fn le(self, other: Self) -> bool {
        self.0 < other.0 || (self.0 == other.0 && self.1 <= other.1)
    }

    proof fn lemma_total(a: Self, b: Self) {
    }

    proof fn lemma_transitive(a: Self, b: Self, c: Self) {
    }

    fn at_most(&self, other: &Self) -> (r: bool) {
        self.0 < other.0 || (self.0 == other.0 && self.1 <= other.1)
    }
}

/// Reordering keeps the members, and how often each occurs.
pub proof fn lemma_same_members<T>(a: Seq<T>, b: Seq<T>)
    requires
        a.to_multiset() == b.to_multiset(),
    ensures
        a.len() == b.len(),
        a.to_set() == b.to_set(),
        a.no_duplicates() == b.no_duplicates(),
{
    broadcast use vstd::seq_lib::group_to_multiset_ensures;

    a.to_multiset_ensures();
    b.to_multiset_ensures();
    assert forall|x: T| a.to_set().contains(x) == b.to_set().contains(x) by {
        assert(a.contains(x) <==> a.to_multiset().count(x) > 0);
        assert(b.contains(x) <==> b.to_multiset().count(x) > 0);
    }
    assert(a.to_set() =~= b.to_set());
    if a.no_duplicates() {
        a.lemma_multiset_has_no_duplicates();
        b.lemma_multiset_has_no_duplicates_conv();
    }
    if b.no_duplicates() {
        b.lemma_multiset_has_no_duplicates();
        a.lemma_multiset_has_no_duplicates_conv();
    }
}

/// Merge two ascending runs. Among equals those of `a` come first.
fn merge<T: Ranked + Copy>(a: &Vec<T>, b: &Vec<T>) -> (r: Vec<T>)
    requires
        ascending(a@),
        ascending(b@),
    ensures
        ascending(r@),
        r@.to_multiset() == (a@ + b@).to_multiset(),
{
    let mut r: Vec<T> = Vec::new();
    let mut i: usize = 0;
    let mut j: usize = 0;
    proof {
        vstd::seq_lib::lemma_multiset_commutative(a@, b@);
        assert(a@.take(0) =~= Seq::<T>::empty());
        assert(b@.take(0) =~= Seq::<T>::empty());
        vstd::seq_lib::lemma_multiset_commutative(Seq::<T>::empty(), Seq::<T>::empty());
        assert(Seq::<T>::empty() + Seq::<T>::empty() =~= Seq::<T>::empty());
    }
    while i < a.len() || j < b.len()
        invariant
            i <= a.len(),
            j <= b.len(),
            ascending(a@),
            ascending(b@),
            ascending(r@),
            r@.to_multiset() == a@.take(i as int).to_multiset().add(
                b@.take(j as int).to_multiset(),
            ),
            forall|k: int, l: int|
                0 <= k < r.len() && i <= l < a.len() ==> (#[trigger] r@[k]).le(#[trigger] a@[l]),
            forall|k: int, l: int|
                0 <= k < r.len() && j <= l < b.len() ==> (#[trigger] r@[k]).le(#[trigger] b@[l]),
        decreases a.len() - i + b.len() - j,
    {
        broadcast use vstd::seq_lib::group_to_multiset_ensures;

        let left: bool = if i >= a.len() {
            false
        } else if j >= b.len() {
            true
        } else {
            a[i].at_most(&b[j])
        };
        if left {
            proof {
                assert(a@.take(i + 1) =~= a@.take(i as int).push(a@[i as int]));
                if j < b.len() {
                    assert forall|l: int| j <= l < b.len() implies a@[i as int].le(
                        #[trigger] b@[l],
                    ) by {
                        if l > j {
                            T::lemma_transitive(a@[i as int], b@[j as int], b@[l]);
                        }
                    }
                }
                T::lemma_total(a@[i as int], a@[i as int]);
            }
            r.push(a[i]);
            i = i + 1;
        } else {
            proof {
                assert(b@.take(j + 1) =~= b@.take(j as int).push(b@[j as int]));
                if i < a.len() {
                    T::lemma_total(a@[i as int], b@[j as int]);
                    assert forall|l: int| i <= l < a.len() implies b@[j as int].le(
                        #[trigger] a@[l],
                    ) by {
                        if l > i {
                            T::lemma_transitive(b@[j as int], a@[i as int], a@[l]);
                        }
                    }
                }
            }
            r.push(b[j]);
            j = j + 1;
        }
    }
    proof {
        assert(a@.take(i as int) =~= a@);
        assert(b@.take(j as int) =~= b@);
    }
    r
}

/// The values of `v[lo..hi]` in ascending order.
fn sort_range<T: Ranked + Copy>(v: &Vec<T>, lo: usize, hi: usize) -> (r: Vec<T>)
    requires
        lo <= hi <= v.len(),
    ensures
        ascending(r@),
        r@.to_multiset() == v@.subrange(lo as int, hi as int).to_multiset(),
    decreases hi - lo,
{
    if hi - lo <= 1 {
        let mut r: Vec<T> = Vec::new();
        if lo < hi {
            r.push(v[lo]);
        }
        assert(r@ =~= v@.subrange(lo as int, hi as int));
        r
    } else {
        let mid: usize = lo + (hi - lo) / 2;
        let a = sort_range(v, lo, mid);
        let b = sort_range(v, mid, hi);
        proof {
            let va = v@.subrange(lo as int, mid as int);
            let vb = v@.subrange(mid as int, hi as int);
            assert(va + vb =~= v@.subrange(lo as int, hi as int));
            vstd::seq_lib::lemma_multiset_commutative(va, vb);
            vstd::seq_lib::lemma_multiset_commutative(a@, b@);
        }
        merge(&a, &b)
    }
}

/// The values of `v` in ascending order.
pub fn sorted<T: Ranked + Copy>(v: &Vec<T>) -> (r: Vec<T>)
    ensures
        ascending(r@),
        r@.to_multiset() == v@.to_multiset(),
{
    assert(v@.subrange(0, v@.len() as int) =~= v@);
    sort_range(v, 0, v.len())
}

/// What a sequence with one more item has.
pub proof fn lemma_push_contains<T>(s: Seq<T>, x: T)
    ensures
        forall|y: T| #[trigger] s.push(x).contains(y) <==> s.contains(y) || y == x,
{
    assert forall|y: T| #[trigger] s.push(x).contains(y) <==> s.contains(y) || y == x by {
        if s.contains(y) {
            let i = choose|i: int| 0 <= i < s.len() && s[i] == y;
            assert(s.push(x)[i] == y);
        }
        if y == x {
            assert(s.push(x)[s.len() as int] == y);
        }
    }
}

/// A new item keeps a sequence without duplicates.
pub proof fn lemma_push_distinct<T>(s: Seq<T>, x: T)
    requires
        s.no_duplicates(),
        !s.contains(x),
    ensures
        s.push(x).no_duplicates(),
{
    assert forall|i: int, j: int|
        0 <= i < s.push(x).len() && 0 <= j < s.push(x).len() && i != j implies s.push(x)[i]
        != s.push(x)[j] by {
        if i < s.len() {
            assert(s.contains(s[i]));
        }
        if j < s.len() {
            assert(s.contains(s[j]));
        }
    }
}

/// A filter keeps those members that it is for.
pub proof fn lemma_filter_members<T>(s: Seq<T>, f: spec_fn(T) -> bool)
    ensures
        forall|x: T| #[trigger] s.filter(f).contains(x) <==> s.contains(x) && f(x),
    decreases s.len(),
{
    reveal_with_fuel(Seq::filter, 2);
    if s.len() > 0 {
        let init = s.drop_last();
        let last = s.last();
        lemma_filter_members(init, f);
        assert(s =~= init.push(last));
        lemma_push_contains(init, last);
        lemma_push_contains(init.filter(f), last);
    } else {
        assert(s.filter(f) =~= Seq::<T>::empty());
    }
}

/// Two lists of the same items, each once, are permutations of each other.
pub proof fn lemma_permutation<T>(a: Seq<T>, b: Seq<T>)
    requires
        a.no_duplicates(),
        b.no_duplicates(),
        forall|x: T| #[trigger] a.contains(x) <==> b.contains(x),
    ensures
        a.to_multiset() == b.to_multiset(),
{
    broadcast use vstd::seq_lib::group_to_multiset_ensures;

    a.to_multiset_ensures();
    b.to_multiset_ensures();
    a.lemma_multiset_has_no_duplicates();
    b.lemma_multiset_has_no_duplicates();
    assert forall|x: T| #[trigger] a.to_multiset().count(x) == b.to_multiset().count(x) by {
        assert(a.contains(x) <==> a.to_multiset().count(x) > 0);
        assert(b.contains(x) <==> b.to_multiset().count(x) > 0);
        assert(a.contains(x) <==> b.contains(x));
        if a.to_multiset().count(x) > 0 {
            assert(a.to_multiset().contains(x));
            assert(b.to_multiset().contains(x));
        }
    }
    assert(a.to_multiset() =~= b.to_multiset());
}

/// A part of a list in which each item is once has each item once.
pub proof fn lemma_filter_distinct<T>(s: Seq<T>, f: spec_fn(T) -> bool)
    requires
        s.no_duplicates(),
    ensures
        s.filter(f).no_duplicates(),
    decreases s.len(),
{
    reveal_with_fuel(Seq::filter, 2);
    if s.len() > 0 {
        let init = s.drop_last();
        let last = s.last();
        lemma_filter_distinct(init, f);
        lemma_filter_members(init, f);
        if f(last) {
            assert(!init.contains(last));
            lemma_push_distinct(init.filter(f), last);
        }
    }
}

/// The same part of two lists of the same items, each once.
pub proof fn lemma_filter_permutation<T>(a: Seq<T>, b: Seq<T>, f: spec_fn(T) -> bool)
    requires
        a.no_duplicates(),
        b.no_duplicates(),
        forall|x: T| #[trigger] a.contains(x) <==> b.contains(x),
    ensures
        a.filter(f).no_duplicates(),
        b.filter(f).no_duplicates(),
        forall|x: T| #[trigger] a.filter(f).contains(x) <==> b.filter(f).contains(x),
        a.filter(f).to_multiset() == b.filter(f).to_multiset(),
{
    lemma_filter_distinct(a, f);
    lemma_filter_distinct(b, f);
    lemma_filter_members(a, f);
    lemma_filter_members(b, f);
    assert forall|x: T| #[trigger] a.filter(f).contains(x) <==> b.filter(f).contains(x) by {
        assert(a.contains(x) <==> b.contains(x));
    }
    lemma_permutation(a.filter(f), b.filter(f));
}

/// What is made of the items of two lists of the same items, each once.
pub proof fn lemma_map_permutation<T, U>(a: Seq<T>, b: Seq<T>, f: spec_fn(T) -> U)
    requires
        a.no_duplicates(),
        b.no_duplicates(),
        forall|x: T| #[trigger] a.contains(x) <==> b.contains(x),
        forall|x: T, y: T| #[trigger] f(x) == #[trigger] f(y) ==> x == y,
    ensures
        a.map_values(f).to_multiset() == b.map_values(f).to_multiset(),
{
    assert forall|u: U| #[trigger] a.map_values(f).contains(u) <==> b.map_values(f).contains(u) by {
        if a.map_values(f).contains(u) {
            lemma_mapped(a, b, f, u);
        }
        if b.map_values(f).contains(u) {
            lemma_mapped(b, a, f, u);
        }
    }
    lemma_permutation(a.map_values(f), b.map_values(f));
}

proof fn lemma_mapped<T, U>(a: Seq<T>, b: Seq<T>, f: spec_fn(T) -> U, u: U)
    requires
        forall|x: T| #[trigger] a.contains(x) ==> b.contains(x),
        a.map_values(f).contains(u),
    ensures
        b.map_values(f).contains(u),
{
    let i = choose|i: int| 0 <= i < a.len() && a.map_values(f)[i] == u;
    assert(a.contains(a[i]));
    let j = choose|j: int| 0 <= j < b.len() && b[j] == a[i];
    assert(b.map_values(f)[j] == u);
}

} // verus!
