//! A stable insertion sort over sequences, written as a specification.
//! Collections whose order carries no meaning (options, choices, channel
//! types) are compared after this sort; an element is placed after every
//! element already ordered at or before it, so equal keys keep their
//! relative order.
use vstd::multiset::Multiset;
use vstd::prelude::*;

verus! {

/// Inserts `x` into `s` after every element `e` with `leq(e, x)`.
pub open spec fn insert_by<T>(s: Seq<T>, x: T, leq: spec_fn(T, T) -> bool) -> Seq<T>
    decreases s.len(),
{
    if s.len() == 0 {
        seq![x]
    } else if leq(s.last(), x) {
        s.push(x)
    } else {
        insert_by(s.drop_last(), x, leq).push(s.last())
    }
}

/// Sorts `s` by inserting its elements left to right: a stable sort.
pub open spec fn sort_by_st<T>(s: Seq<T>, leq: spec_fn(T, T) -> bool) -> Seq<T>
    decreases s.len(),
{
    if s.len() == 0 {
        Seq::empty()
    } else {
        insert_by(sort_by_st(s.drop_last(), leq), s.last(), leq)
    }
}

pub proof fn lemma_insert_by_len<T>(s: Seq<T>, x: T, leq: spec_fn(T, T) -> bool)
    ensures
        insert_by(s, x, leq).len() == s.len() + 1,
    decreases s.len(),
{
    if s.len() > 0 && !leq(s.last(), x) {
        lemma_insert_by_len(s.drop_last(), x, leq);
    }
}

pub proof fn lemma_sort_by_st_len<T>(s: Seq<T>, leq: spec_fn(T, T) -> bool)
    ensures
        sort_by_st(s, leq).len() == s.len(),
    decreases s.len(),
{
    if s.len() > 0 {
        lemma_sort_by_st_len(s.drop_last(), leq);
        lemma_insert_by_len(sort_by_st(s.drop_last(), leq), s.last(), leq);
    }
}

/// Where the insertion scan stops determines the result: `x` lands at
/// position `pos`, and everything else keeps its order.
pub proof fn lemma_insert_by_split<T>(s: Seq<T>, x: T, leq: spec_fn(T, T) -> bool, pos: int)
    requires
        0 <= pos <= s.len(),
        forall|m: int| pos <= m < s.len() ==> !leq(#[trigger] s[m], x),
        pos > 0 ==> leq(s[pos - 1], x),
    ensures
        insert_by(s, x, leq) == s.take(pos) + seq![x] + s.skip(pos),
    decreases s.len(),
{
    if s.len() == 0 {
        assert(insert_by(s, x, leq) =~= s.take(pos) + seq![x] + s.skip(pos));
    } else if leq(s.last(), x) {
        assert(pos == s.len());
        assert(insert_by(s, x, leq) =~= s.take(pos) + seq![x] + s.skip(pos));
    } else {
        assert(pos < s.len());
        lemma_insert_by_split(s.drop_last(), x, leq, pos);
        assert(insert_by(s, x, leq) =~= s.take(pos) + seq![x] + s.skip(pos));
    }
}

/// Sorting a sequence extended by one element inserts that element into
/// the sorted rest.
pub proof fn lemma_sort_by_st_push<T>(s: Seq<T>, x: T, leq: spec_fn(T, T) -> bool)
    ensures
        sort_by_st(s.push(x), leq) == insert_by(sort_by_st(s, leq), x, leq),
{
    assert(s.push(x).drop_last() =~= s);
    assert(s.push(x).last() == x);
    assert(s.push(x).len() == s.len() + 1);
}

/// Inserting keeps the elements: the result holds one more `x`.
pub proof fn lemma_insert_by_multiset<T>(s: Seq<T>, x: T, leq: spec_fn(T, T) -> bool)
    ensures
        insert_by(s, x, leq).to_multiset() == s.to_multiset().insert(x),
    decreases s.len(),
{
    broadcast use vstd::seq_lib::group_to_multiset_ensures;

    if s.len() == 0 {
        assert(seq![x] =~= Seq::<T>::empty().push(x));
        assert(s.to_multiset() =~= Multiset::<T>::empty());
    } else if leq(s.last(), x) {
    } else {
        lemma_insert_by_multiset(s.drop_last(), x, leq);
        assert(s.drop_last().push(s.last()) =~= s);
        assert(s.drop_last().to_multiset().insert(x).insert(s.last())
            =~= s.drop_last().to_multiset().insert(s.last()).insert(x));
    }
}

/// Sorting keeps the elements.
pub proof fn lemma_sort_by_st_multiset<T>(s: Seq<T>, leq: spec_fn(T, T) -> bool)
    ensures
        sort_by_st(s, leq).to_multiset() == s.to_multiset(),
    decreases s.len(),
{
    broadcast use vstd::seq_lib::group_to_multiset_ensures;

    if s.len() > 0 {
        lemma_sort_by_st_multiset(s.drop_last(), leq);
        lemma_insert_by_multiset(sort_by_st(s.drop_last(), leq), s.last(), leq);
        assert(s.drop_last().push(s.last()) =~= s);
    }
}

/// Inserting into an ordered sequence keeps it ordered, for a total and
/// transitive relation.
pub proof fn lemma_insert_by_sorted<T>(s: Seq<T>, x: T, leq: spec_fn(T, T) -> bool)
    requires
        vstd::relations::sorted_by(s, leq),
        forall|u: T, v: T| #[trigger] leq(u, v) || #[trigger] leq(v, u),
        forall|u: T, v: T, w: T| #[trigger] leq(u, v) && #[trigger] leq(v, w) ==> leq(u, w),
    ensures
        vstd::relations::sorted_by(insert_by(s, x, leq), leq),
    decreases s.len(),
{
    broadcast use vstd::seq_lib::group_to_multiset_ensures;

    let r = insert_by(s, x, leq);
    if s.len() == 0 {
    } else if leq(s.last(), x) {
        assert forall|i: int, j: int| 0 <= i < j < r.len() implies #[trigger] leq(r[i], r[j]) by {
            if j == r.len() - 1 {
                if i < s.len() - 1 {
                    assert(leq(s[i], s.last()));
                }
                assert(leq(r[i], x));
            }
        }
    } else {
        let t = insert_by(s.drop_last(), x, leq);
        lemma_insert_by_sorted(s.drop_last(), x, leq);
        lemma_insert_by_multiset(s.drop_last(), x, leq);
        assert forall|i: int, j: int| 0 <= i < j < r.len() implies #[trigger] leq(r[i], r[j]) by {
            if j == r.len() - 1 {
                let u = t[i];
                assert(t.contains(u));
                assert(t.to_multiset().count(u) > 0);
                if u == x {
                    assert(leq(x, s.last()));
                } else {
                    assert(s.drop_last().to_multiset().count(u) > 0);
                    assert(s.drop_last().contains(u));
                    let k = choose|k: int| 0 <= k < s.drop_last().len() && s.drop_last()[k] == u;
                    assert(leq(s[k], s.last()));
                }
            }
        }
    }
}

/// The stable sort orders its input, for a total and transitive
/// relation.
pub proof fn lemma_sort_by_st_sorted<T>(s: Seq<T>, leq: spec_fn(T, T) -> bool)
    requires
        forall|u: T, v: T| #[trigger] leq(u, v) || #[trigger] leq(v, u),
        forall|u: T, v: T, w: T| #[trigger] leq(u, v) && #[trigger] leq(v, w) ==> leq(u, w),
    ensures
        vstd::relations::sorted_by(sort_by_st(s, leq), leq),
    decreases s.len(),
{
    if s.len() > 0 {
        lemma_sort_by_st_sorted(s.drop_last(), leq);
        lemma_insert_by_sorted(sort_by_st(s.drop_last(), leq), s.last(), leq);
    }
}

/// Two ordered sequences holding the same elements are equal, provided
/// the relation tells the elements present apart: mutual order between
/// elements of the two sequences means equality.
pub proof fn lemma_sorted_unique<T>(s1: Seq<T>, s2: Seq<T>, leq: spec_fn(T, T) -> bool)
    requires
        vstd::relations::sorted_by(s1, leq),
        vstd::relations::sorted_by(s2, leq),
        s1.to_multiset() == s2.to_multiset(),
        forall|u: T, v: T|
            s1.contains(u) && s2.contains(v) && #[trigger] leq(u, v) && #[trigger] leq(v, u)
                ==> u == v,
    ensures
        s1 == s2,
    decreases s1.len(),
{
    broadcast use vstd::seq_lib::group_to_multiset_ensures;

    if s1.len() == 0 {
        assert(s2.len() == 0);
        assert(s1 =~= s2);
    } else {
        assert(s1.to_multiset().len() == s1.len());
        assert(s2.to_multiset().len() == s2.len());
        assert(s2.len() == s1.len());
        assert(s1.contains(s1[0]));
        assert(s2.to_multiset().count(s1[0]) > 0);
        assert(s2.contains(s1[0]));
        if s1[0] != s2[0] {
            let j = choose|j: int| 0 <= j < s2.len() && s2[j] == s1[0];
            assert(j > 0);
            assert(leq(s2[0], s2[j]));
            assert(leq(s2[0], s1[0]));
            assert(s2.contains(s2[0]));
            assert(s1.to_multiset().count(s2[0]) > 0);
            assert(s1.contains(s2[0]));
            let k = choose|k: int| 0 <= k < s1.len() && s1[k] == s2[0];
            assert(k > 0);
            assert(leq(s1[0], s1[k]));
            assert(leq(s1[0], s2[0]));
            assert(false);
        }
        assert(s1[0] == s2[0]);
        let t1 = s1.drop_first();
        let t2 = s2.drop_first();
        assert(s1.remove(0) =~= t1);
        assert(s2.remove(0) =~= t2);
        assert(t1.to_multiset() == s1.to_multiset().remove(s1[0]));
        assert(t2.to_multiset() == s2.to_multiset().remove(s2[0]));
        assert forall|p: int, q: int| 0 <= p < q < t1.len() implies #[trigger] leq(t1[p], t1[q])
        by {
            assert(leq(s1[p + 1], s1[q + 1]));
        }
        assert forall|p: int, q: int| 0 <= p < q < t2.len() implies #[trigger] leq(t2[p], t2[q])
        by {
            assert(leq(s2[p + 1], s2[q + 1]));
        }
        assert forall|u: T, v: T|
            t1.contains(u) && t2.contains(v) && #[trigger] leq(u, v) && #[trigger] leq(v, u)
                implies u == v by {
            let p = choose|p: int| 0 <= p < t1.len() && t1[p] == u;
            assert(s1[p + 1] == u);
            assert(s1.contains(u));
            let q = choose|q: int| 0 <= q < t2.len() && t2[q] == v;
            assert(s2[q + 1] == v);
            assert(s2.contains(v));
        }
        lemma_sorted_unique(t1, t2, leq);
        assert forall|m: int| 0 <= m < s1.len() implies s1[m] == s2[m] by {
            if m > 0 {
                assert(t1[m - 1] == t2[m - 1]);
                assert(s1[m] == t1[m - 1]);
                assert(s2[m] == t2[m - 1]);
            }
        }
        assert(s1 =~= s2);
    }
}

/// The numeric order on bytes, under which channel-type encodings are
/// sorted before they are compared.
pub open spec fn le_u8() -> spec_fn(u8, u8) -> bool {
    |a: u8, b: u8| a <= b
}

/// A collection that can hand back an ordered copy of itself.
pub trait Sorted: View + Sized {
    /// What the ordered copy views as.
    spec fn sorted_view(self) -> Self::V;

    /// Returns the collection with its elements in order.
    fn sorted(self) -> (r: Self)
        ensures
            r@ == self.sorted_view(),
    ;
}

impl Sorted for Vec<u8> {
    open spec fn sorted_view(self) -> Seq<u8> {
        sort_by_st(self@, le_u8())
    }

    fn sorted(self) -> (r: Vec<u8>) {
        let mut r: Vec<u8> = Vec::new();
        let mut j: usize = 0;
        while j < self.len()
            invariant
                0 <= j <= self@.len(),
                r@ == sort_by_st(self@.take(j as int), le_u8()),
            decreases self@.len() - j,
        {
            let x = self[j];
            let ghost t = r@;
            proof {
                lemma_sort_by_st_len(self@.take(j as int), le_u8());
            }
            let mut pos: usize = r.len();
            loop
                invariant
                    0 <= pos <= r@.len(),
                    r@ == t,
                    forall|m: int| pos <= m < t.len() ==> !le_u8()(#[trigger] t[m], x),
                ensures
                    0 <= pos <= t.len(),
                    forall|m: int| pos <= m < t.len() ==> !le_u8()(#[trigger] t[m], x),
                    pos > 0 ==> le_u8()(t[pos - 1], x),
                decreases pos,
            {
                if pos == 0 {
                    break;
                }
                if r[pos - 1] <= x {
                    break;
                }
                pos = pos - 1;
            }
            r.insert(pos, x);
            proof {
                lemma_insert_by_split(t, x, le_u8(), pos as int);
                assert(r@ =~= t.take(pos as int) + seq![x] + t.skip(pos as int));
                lemma_sort_by_st_push(self@.take(j as int), self@[j as int], le_u8());
                assert(self@.take(j as int).push(self@[j as int]) =~= self@.take(j + 1));
            }
            j = j + 1;
        }
        proof {
            assert(self@.take(self@.len() as int) =~= self@);
        }
        r
    }
}

} // verus!
