//! Stable sorting by a key order, as `slice::sort_by` does it: items whose
//! keys tie keep their input order.
use vstd::prelude::*;

verus! {

/// A strict order on the sort keys of a type.
pub trait SortKey: Sized {
    /// `self`'s key comes strictly before `other`'s.
    spec fn precedes(&self, other: &Self) -> bool;
}

/// A key order that executable code can test.
pub trait SortKeyExec: SortKey {
    fn precedes_exec(&self, other: &Self) -> (r: bool)
        ensures
            r == self.precedes(other),
    ;
}

/// `x` inserted into `s` after every item whose key does not come after `x`'s.
pub open spec fn insert_sorted<T: SortKey>(s: Seq<T>, x: T) -> Seq<T>
    decreases s.len(),
{
    if s.len() == 0 {
        seq![x]
    } else if x.precedes(&s.last()) {
        insert_sorted(s.drop_last(), x).push(s.last())
    } else {
        s.push(x)
    }
}

/// The stable sort of `s`: each item in turn inserted after the items before
/// it whose keys do not come after its own.
pub open spec fn sorted<T: SortKey>(s: Seq<T>) -> Seq<T>
    decreases s.len(),
{
    if s.len() == 0 {
        seq![]
    } else {
        insert_sorted(sorted(s.drop_last()), s.last())
    }
}

proof fn lemma_insert_at<T: SortKey>(s: Seq<T>, x: T, j: int)
    requires
        0 <= j <= s.len(),
        j == 0 || !x.precedes(&s[j - 1]),
        forall|k: int| j <= k < s.len() ==> x.precedes(&s[k]),
    ensures
        insert_sorted(s, x) == s.take(j).push(x) + s.skip(j),
    decreases s.len(),
{
    if s.len() == 0 {
        assert(s.take(j).push(x) + s.skip(j) =~= seq![x]);
    } else if j == s.len() {
        assert(s.take(j) =~= s);
        assert(s.skip(j) =~= Seq::<T>::empty());
        assert(s.take(j).push(x) + s.skip(j) =~= s.push(x));
    } else {
        assert(x.precedes(&s[s.len() - 1]));
        let t = s.drop_last();
        assert forall|k: int| j <= k < t.len() implies x.precedes(&t[k]) by {
            assert(t[k] == s[k]);
        }
        if j > 0 {
            assert(t[j - 1] == s[j - 1]);
        }
        lemma_insert_at(t, x, j);
        assert(t.take(j) =~= s.take(j));
        assert((t.take(j).push(x) + t.skip(j)).push(s.last()) =~= s.take(j).push(x) + s.skip(j));
    }
}

proof fn lemma_insert_map<T: SortKey, U: SortKey>(s: Seq<T>, x: T, f: spec_fn(T) -> U)
    requires
        forall|a: T, b: T| #[trigger] a.precedes(&b) == f(a).precedes(&f(b)),
    ensures
        insert_sorted(s, x).map_values(f) == insert_sorted(s.map_values(f), f(x)),
    decreases s.len(),
{
    if s.len() == 0 {
        assert(seq![x].map_values(f) =~= seq![f(x)]);
    } else {
        assert(s.map_values(f).last() == f(s.last()));
        assert(s.map_values(f).drop_last() =~= s.drop_last().map_values(f));
        assert(x.precedes(&s.last()) == f(x).precedes(&f(s.last())));
        if x.precedes(&s.last()) {
            lemma_insert_map(s.drop_last(), x, f);
            assert(insert_sorted(s.drop_last(), x).push(s.last()).map_values(f) =~= insert_sorted(
                s.drop_last(),
                x,
            ).map_values(f).push(f(s.last())));
        } else {
            assert(s.push(x).map_values(f) =~= s.map_values(f).push(f(x)));
        }
    }
}

/// Sorting commutes with a map that keeps the key order.
pub proof fn lemma_sorted_map<T: SortKey, U: SortKey>(s: Seq<T>, f: spec_fn(T) -> U)
    requires
        forall|a: T, b: T| #[trigger] a.precedes(&b) == f(a).precedes(&f(b)),
    ensures
        sorted(s).map_values(f) == sorted(s.map_values(f)),
    decreases s.len(),
{
    if s.len() == 0 {
        assert(s.map_values(f) =~= Seq::<U>::empty());
    } else {
        lemma_sorted_map(s.drop_last(), f);
        lemma_insert_map(sorted(s.drop_last()), s.last(), f);
        assert(s.map_values(f).drop_last() =~= s.drop_last().map_values(f));
        assert(s.map_values(f).last() == f(s.last()));
    }
}

/// Strings sort by `String`'s order: lexicographic by character.
impl SortKey for String {
    open spec fn precedes(&self, other: &Self) -> bool {
        crate::text::text_lt(self@, other@)
    }
}

impl SortKeyExec for String {
    fn precedes_exec(&self, other: &Self) -> (r: bool) {
        crate::text::text_less(
            &crate::text::chars_of(self.as_str()),
            &crate::text::chars_of(other.as_str()),
        )
    }
}

/// Stable sort of `v` by key.
pub fn sort_by_key<T: SortKeyExec>(v: Vec<T>) -> (r: Vec<T>)
    ensures
        r@ == sorted(v@),
{
    let ghost orig = v@;
    let n = v.len();
    let mut input = v;
    let mut out: Vec<T> = Vec::new();
    let mut i: usize = 0;
    while input.len() > 0
        invariant
            i + input.len() == orig.len(),
            orig.len() == n,
            input@ == orig.skip(i as int),
            out@ == sorted(orig.take(i as int)),
        decreases input.len(),
    {
        let x = input.remove(0);
        proof {
            assert(orig.take(i + 1).drop_last() == orig.take(i as int));
            assert(orig.take(i + 1).last() == x);
            assert(input@ == orig.skip(i + 1));
        }
        let mut j: usize = out.len();
        while j > 0 && x.precedes_exec(&out[j - 1])
            invariant
                j <= out.len(),
                forall|k: int| j <= k < out.len() ==> x.precedes(&out@[k]),
            decreases j,
        {
            j -= 1;
        }
        proof {
            lemma_insert_at(out@, x, j as int);
        }
        let ghost before = out@;
        out.insert(j, x);
        proof {
            assert(out@ =~= before.take(j as int).push(x) + before.skip(j as int));
        }
        i += 1;
    }
    proof {
        assert(orig.take(orig.len() as int) == orig);
    }
    out
}

/// `s` is in key order: no item's key comes strictly before an earlier one's.
pub open spec fn is_ordered<T: SortKey>(s: Seq<T>) -> bool {
    forall|i: int, j: int| #![trigger s[i], s[j]] 0 <= i < j < s.len() ==> !s[j].precedes(&s[i])
}

/// The key order is a strict weak order: asymmetric, and "does not come
/// before" is transitive.
pub open spec fn is_strict_weak_order<T: SortKey>() -> bool {
    &&& forall|a: T, b: T| #[trigger] a.precedes(&b) ==> !b.precedes(&a)
    &&& forall|a: T, b: T, c: T|
        #![trigger a.precedes(&b), b.precedes(&c)]
        !a.precedes(&b) && !b.precedes(&c) ==> !a.precedes(&c)
}

proof fn lemma_insert_multiset<T: SortKey>(s: Seq<T>, x: T)
    ensures
        insert_sorted(s, x).to_multiset() == s.to_multiset().insert(x),
        insert_sorted(s, x).len() == s.len() + 1,
    decreases s.len(),
{
    broadcast use vstd::seq_lib::to_multiset_build;
    broadcast use vstd::multiset::group_multiset_axioms;

    if s.len() == 0 {
        assert(seq![x] =~= s.push(x));
    } else {
        let t = s.drop_last();
        assert(s =~= t.push(s.last()));
        if x.precedes(&s.last()) {
            lemma_insert_multiset(t, x);
            assert(insert_sorted(s, x).to_multiset() =~= s.to_multiset().insert(x));
        } else {
            assert(insert_sorted(s, x).to_multiset() =~= s.to_multiset().insert(x));
        }
    }
}

/// Sorting keeps every item: the result is a permutation of the input.
pub proof fn lemma_sorted_permutation<T: SortKey>(s: Seq<T>)
    ensures
        sorted(s).to_multiset() == s.to_multiset(),
        sorted(s).len() == s.len(),
    decreases s.len(),
{
    broadcast use vstd::seq_lib::to_multiset_build;

    if s.len() > 0 {
        let t = s.drop_last();
        lemma_sorted_permutation(t);
        lemma_insert_multiset(sorted(t), s.last());
        assert(s =~= t.push(s.last()));
    } else {
        assert(sorted(s) =~= s);
    }
}

proof fn lemma_insert_ordered<T: SortKey>(s: Seq<T>, x: T)
    requires
        is_strict_weak_order::<T>(),
        is_ordered(s),
    ensures
        is_ordered(insert_sorted(s, x)),
    decreases s.len(),
{
    broadcast use vstd::seq_lib::to_multiset_contains;

    if s.len() == 0 {
    } else {
        let t = s.drop_last();
        let last = s.last();
        assert(is_ordered(t)) by {
            assert forall|i: int, j: int| #![trigger t[i], t[j]] 0 <= i < j < t.len() implies !t[j].precedes(&t[i]) by {
                assert(t[i] == s[i] && t[j] == s[j]);
            }
        }
        if x.precedes(&last) {
            lemma_insert_ordered(t, x);
            lemma_insert_multiset(t, x);
            let u = insert_sorted(t, x);
            let r = u.push(last);
            assert forall|i: int, j: int| #![trigger r[i], r[j]] 0 <= i < j < r.len() implies !r[j].precedes(&r[i]) by {
                if j == r.len() - 1 {
                    assert(r[j] == last);
                    assert(r[i] == u[i]);
                    assert(u.contains(u[i]));
                    assert(u.to_multiset().count(u[i]) > 0);
                    if u[i] != x {
                        assert(t.to_multiset().count(u[i]) > 0);
                        assert(t.contains(u[i]));
                        let k = choose|k: int| 0 <= k < t.len() && t[k] == u[i];
                        assert(s[k] == t[k]);
                        assert(!s[s.len() - 1].precedes(&s[k]));
                    }
                } else {
                    assert(r[i] == u[i] && r[j] == u[j]);
                }
            }
        } else {
            let r = s.push(x);
            assert forall|i: int, j: int| #![trigger r[i], r[j]] 0 <= i < j < r.len() implies !r[j].precedes(&r[i]) by {
                if j == r.len() - 1 {
                    assert(r[j] == x);
                    assert(r[i] == s[i]);
                    if i < s.len() - 1 {
                        assert(!s[s.len() - 1].precedes(&s[i]));
                        assert(!x.precedes(&last) && !last.precedes(&s[i]) ==> !x.precedes(&s[i]));
                    }
                } else {
                    assert(r[i] == s[i] && r[j] == s[j]);
                }
            }
        }
    }
}

/// Under a strict weak key order, [`sorted`] puts items in key order.
pub proof fn lemma_sorted_ordered<T: SortKey>(s: Seq<T>)
    requires
        is_strict_weak_order::<T>(),
    ensures
        is_ordered(sorted(s)),
    decreases s.len(),
{
    if s.len() > 0 {
        lemma_sorted_ordered(s.drop_last());
        lemma_insert_ordered(sorted(s.drop_last()), s.last());
    }
}

} // verus!
