//! Stable sorting.

use vstd::multiset::*;
use vstd::prelude::*;
use vstd::seq_lib::*;

verus! {

/// Values with a total preorder to sort by.
pub trait Ranked: Sized {
    /// Whether `self` may stand before `other`.
    spec fn ranks_le(self, other: Self) -> bool;

    proof fn ranks_total(a: Self, b: Self)
        ensures
            a.ranks_le(b) || b.ranks_le(a),
    ;

    proof fn ranks_transitive(a: Self, b: Self, c: Self)
        requires
            a.ranks_le(b),
            b.ranks_le(c),
        ensures
            a.ranks_le(c),
    ;

    fn is_le(&self, other: &Self) -> (r: bool)
        ensures
            r == self.ranks_le(*other),
    ;
}

/// Two values that the order does not tell apart.
pub open spec fn same_rank<T: Ranked>(a: T, b: T) -> bool {
    a.ranks_le(b) && b.ranks_le(a)
}

/// The values of `s` that rank with `x`, in their order.
pub open spec fn of_rank<T: Ranked>(s: Seq<T>, x: T) -> Seq<T> {
    s.filter(|y: T| same_rank(x, y))
}

/// No value of `s` ranks above a later one.
pub open spec fn ascending<T: Ranked>(s: Seq<T>) -> bool {
    forall|i: int, j: int| 0 <= i <= j < s.len() ==> #[trigger] s[i].ranks_le(#[trigger] s[j])
}

/// `sorted` holds the values of `s` in ascending order, values of one rank
/// in the order they have in `s`. There is exactly one such sequence.
pub open spec fn stably_sorted<T: Ranked>(s: Seq<T>, sorted: Seq<T>) -> bool {
    &&& ascending(sorted)
    &&& sorted.to_multiset() == s.to_multiset()
    &&& forall|x: T| #[trigger] of_rank(sorted, x) == of_rank(s, x)
}

proof fn lemma_of_rank_push<T: Ranked>(s: Seq<T>, v: T, x: T)
    ensures
        of_rank(s.push(v), x) == (if same_rank(x, v) {
            of_rank(s, x).push(v)
        } else {
            of_rank(s, x)
        }),
{
    reveal(Seq::filter);
    assert(s.push(v).drop_last() =~= s);
}

proof fn lemma_of_rank_add<T: Ranked>(a: Seq<T>, b: Seq<T>, x: T)
    ensures
        of_rank(a + b, x) == of_rank(a, x) + of_rank(b, x),
{
    Seq::filter_distributes_over_add(a, b, |y: T| same_rank(x, y));
}

/// Values that all rank strictly below or above `x` leave nothing of its
/// rank.
proof fn lemma_of_rank_none<T: Ranked>(s: Seq<T>, x: T)
    requires
        forall|i: int| 0 <= i < s.len() ==> !same_rank(x, #[trigger] s[i]),
    ensures
        of_rank(s, x) == Seq::<T>::empty(),
    decreases s.len(),
{
    reveal(Seq::filter);
    if s.len() > 0 {
        lemma_of_rank_none(s.drop_last(), x);
    }
}

/// Two values that rank with a third rank with each other.
proof fn lemma_rank_class<T: Ranked>(x: T, a: T, b: T)
    requires
        same_rank(x, a),
        same_rank(x, b),
    ensures
        same_rank(a, b),
{
    T::ranks_transitive(a, x, b);
    T::ranks_transitive(b, x, a);
}

/// Reverse a vector.
pub fn reversed<T>(v: Vec<T>) -> (r: Vec<T>)
    ensures
        r@ == v@.reverse(),
{
    let mut v = v;
    let mut r: Vec<T> = Vec::new();
    let ghost v0 = v@;
    while v.len() > 0
        invariant
            v@ == v0.take(v@.len() as int),
            v@.len() <= v0.len(),
            r@ == v0.skip(v@.len() as int).reverse(),
        decreases v@.len(),
    {
        let ghost before = v@;
        match v.pop() {
            Some(x) => {
                r.push(x);
            },
            None => {},
        }
        proof {
            assert(v@ =~= v0.take(before.len() - 1));
            assert(r@ =~= v0.skip(before.len() - 1).reverse());
        }
    }
    assert(v0.skip(0) =~= v0);
    r
}

/// The state of a merge from the back: what is left of both inputs, and what
/// was taken, largest first.
spec fn merge_state<T: Ranked>(
    a0: Seq<T>,
    b0: Seq<T>,
    a: Seq<T>,
    b: Seq<T>,
    taken: Seq<T>,
) -> bool {
    &&& ascending(a)
    &&& ascending(b)
    &&& ascending(taken)
    &&& forall|i: int, j: int|
        0 <= i < a.len() && 0 <= j < taken.len() ==> #[trigger] a[i].ranks_le(#[trigger] taken[j])
    &&& forall|i: int, j: int|
        0 <= i < b.len() && 0 <= j < taken.len() ==> #[trigger] b[i].ranks_le(#[trigger] taken[j])
    &&& (a + b + taken).to_multiset() == (a0 + b0).to_multiset()
    &&& forall|x: T| #[trigger]
        of_rank(a, x) + of_rank(b, x) + of_rank(taken, x) == of_rank(a0 + b0, x)
}

proof fn lemma_take_from_b<T: Ranked>(
    a0: Seq<T>,
    b0: Seq<T>,
    a: Seq<T>,
    b: Seq<T>,
    taken: Seq<T>,
)
    requires
        merge_state(a0, b0, a, b, taken),
        b.len() > 0,
        a.len() > 0 ==> a.last().ranks_le(b.last()),
    ensures
        merge_state(a0, b0, a, b.drop_last(), seq![b.last()] + taken),
{
    let v = b.last();
    let b2 = b.drop_last();
    let taken2 = seq![v] + taken;
    assert(b =~= b2.push(v));
    assert(a + b + taken =~= a + b2 + taken2);
    assert forall|i: int, j: int| 0 <= i <= j < taken2.len() implies #[trigger] taken2[i].ranks_le(
        #[trigger] taken2[j],
    ) by {
        T::ranks_total(v, v);
        if i == 0 {
            if j > 0 {
                assert(b[b.len() - 1].ranks_le(taken[j - 1]));
            }
        } else {
            assert(taken[i - 1].ranks_le(taken[j - 1]));
        }
    }
    assert forall|i: int, j: int|
        0 <= i < a.len() && 0 <= j < taken2.len() implies #[trigger] a[i].ranks_le(
        #[trigger] taken2[j],
    ) by {
        if j == 0 {
            assert(a[i].ranks_le(a[a.len() - 1]));
            T::ranks_transitive(a[i], a.last(), v);
        } else {
            assert(a[i].ranks_le(taken[j - 1]));
        }
    }
    assert forall|i: int, j: int|
        0 <= i < b2.len() && 0 <= j < taken2.len() implies #[trigger] b2[i].ranks_le(
        #[trigger] taken2[j],
    ) by {
        if j == 0 {
            assert(b[i].ranks_le(b[b.len() - 1]));
        } else {
            assert(b[i].ranks_le(taken[j - 1]));
        }
    }
    assert forall|i: int, j: int| 0 <= i <= j < b2.len() implies #[trigger] b2[i].ranks_le(
        #[trigger] b2[j],
    ) by {
        assert(b[i].ranks_le(b[j]));
    }
    assert forall|x: T| #[trigger]
        of_rank(a, x) + of_rank(b2, x) + of_rank(taken2, x) == of_rank(a0 + b0, x) by {
        lemma_of_rank_push(b2, v, x);
        lemma_of_rank_add(seq![v], taken, x);
        lemma_of_rank_push(Seq::<T>::empty(), v, x);
        lemma_of_rank_none(Seq::<T>::empty(), x);
        assert(Seq::<T>::empty().push(v) =~= seq![v]);
        assert(of_rank(a, x) + of_rank(b, x) + of_rank(taken, x) == of_rank(a0 + b0, x));
        assert(of_rank(a, x) + of_rank(b2, x) + of_rank(taken2, x) =~= of_rank(a, x) + of_rank(
            b,
            x,
        ) + of_rank(taken, x));
    }
}

proof fn lemma_take_from_a<T: Ranked>(
    a0: Seq<T>,
    b0: Seq<T>,
    a: Seq<T>,
    b: Seq<T>,
    taken: Seq<T>,
)
    requires
        merge_state(a0, b0, a, b, taken),
        a.len() > 0,
        b.len() > 0 ==> !a.last().ranks_le(b.last()),
    ensures
        merge_state(a0, b0, a.drop_last(), b, seq![a.last()] + taken),
{
    let v = a.last();
    let a2 = a.drop_last();
    let taken2 = seq![v] + taken;
    assert(a =~= a2.push(v));
    assert((a + b + taken).to_multiset() =~= (a2 + b + taken2).to_multiset()) by {
        lemma_multiset_commutative(a2, seq![v]);
        lemma_multiset_commutative(a, b);
        lemma_multiset_commutative(a + b, taken);
        lemma_multiset_commutative(a2, b);
        lemma_multiset_commutative(a2 + b, taken2);
        lemma_multiset_commutative(seq![v], taken);
        assert(a2 + seq![v] =~= a);
    }
    if b.len() > 0 {
        T::ranks_total(v, b.last());
    }
    assert forall|i: int| 0 <= i < b.len() implies #[trigger] b[i].ranks_le(v) by {
        assert(b[i].ranks_le(b[b.len() - 1]));
        T::ranks_transitive(b[i], b.last(), v);
    }
    assert forall|i: int, j: int| 0 <= i <= j < taken2.len() implies #[trigger] taken2[i].ranks_le(
        #[trigger] taken2[j],
    ) by {
        T::ranks_total(v, v);
        if i == 0 {
            if j > 0 {
                assert(a[a.len() - 1].ranks_le(taken[j - 1]));
            }
        } else {
            assert(taken[i - 1].ranks_le(taken[j - 1]));
        }
    }
    assert forall|i: int, j: int|
        0 <= i < a2.len() && 0 <= j < taken2.len() implies #[trigger] a2[i].ranks_le(
        #[trigger] taken2[j],
    ) by {
        if j == 0 {
            assert(a[i].ranks_le(a[a.len() - 1]));
        } else {
            assert(a[i].ranks_le(taken[j - 1]));
        }
    }
    assert forall|i: int, j: int|
        0 <= i < b.len() && 0 <= j < taken2.len() implies #[trigger] b[i].ranks_le(
        #[trigger] taken2[j],
    ) by {
        if j > 0 {
            assert(b[i].ranks_le(taken[j - 1]));
        }
    }
    assert forall|i: int, j: int| 0 <= i <= j < a2.len() implies #[trigger] a2[i].ranks_le(
        #[trigger] a2[j],
    ) by {
        assert(a[i].ranks_le(a[j]));
    }
    assert forall|x: T| #[trigger]
        of_rank(a2, x) + of_rank(b, x) + of_rank(taken2, x) == of_rank(a0 + b0, x) by {
        lemma_of_rank_push(a2, v, x);
        lemma_of_rank_add(seq![v], taken, x);
        lemma_of_rank_push(Seq::<T>::empty(), v, x);
        lemma_of_rank_none(Seq::<T>::empty(), x);
        assert(Seq::<T>::empty().push(v) =~= seq![v]);
        assert(of_rank(a, x) + of_rank(b, x) + of_rank(taken, x) == of_rank(a0 + b0, x));
        if same_rank(x, v) {
            assert forall|i: int| 0 <= i < b.len() implies !same_rank(x, #[trigger] b[i]) by {
                if same_rank(x, b[i]) {
                    lemma_rank_class(x, v, b[i]);
                    assert(b[i].ranks_le(b[b.len() - 1]));
                    T::ranks_transitive(v, b[i], b.last());
                }
            }
            lemma_of_rank_none(b, x);
        }
        assert(of_rank(a2, x) + of_rank(b, x) + of_rank(taken2, x) =~= of_rank(a, x) + of_rank(
            b,
            x,
        ) + of_rank(taken, x));
    }
}

/// Merge two ascending vectors; of values of one rank those of `a` come
/// first.
fn merge<T: Ranked>(a: Vec<T>, b: Vec<T>) -> (r: Vec<T>)
    requires
        ascending(a@),
        ascending(b@),
    ensures
        stably_sorted(a@ + b@, r@),
{
    let mut a = a;
    let mut b = b;
    let ghost a0 = a@;
    let ghost b0 = b@;
    let mut back: Vec<T> = Vec::new();
    proof {
        assert(back@.reverse() =~= Seq::<T>::empty());
        assert(a0 + b0 + back@.reverse() =~= a0 + b0);
        assert forall|x: T| #[trigger]
            of_rank(a0, x) + of_rank(b0, x) + of_rank(back@.reverse(), x) == of_rank(
                a0 + b0,
                x,
            ) by {
            lemma_of_rank_add(a0, b0, x);
            lemma_of_rank_none(back@.reverse(), x);
            assert(of_rank(a0, x) + of_rank(b0, x) + of_rank(back@.reverse(), x) =~= of_rank(a0, x)
                + of_rank(b0, x));
        }
    }
    while a.len() > 0 || b.len() > 0
        invariant
            merge_state(a0, b0, a@, b@, back@.reverse()),
        decreases a@.len() + b@.len(),
    {
        let from_b: bool = if b.len() == 0 {
            false
        } else if a.len() == 0 {
            true
        } else {
            a[a.len() - 1].is_le(&b[b.len() - 1])
        };
        let ghost taken = back@.reverse();
        let ghost a_before = a@;
        let ghost b_before = b@;
        let next = if from_b {
            b.pop()
        } else {
            a.pop()
        };
        match next {
            Some(v) => {
                back.push(v);
                proof {
                    assert(back@.reverse() =~= seq![v] + taken);
                    if from_b {
                        lemma_take_from_b(a0, b0, a_before, b_before, taken);
                        assert(b@ =~= b_before.drop_last());
                    } else {
                        lemma_take_from_a(a0, b0, a_before, b_before, taken);
                        assert(a@ =~= a_before.drop_last());
                    }
                }
            },
            None => {},
        }
    }
    let r = reversed(back);
    proof {
        assert(a@ + b@ + r@ =~= r@);
        assert forall|x: T| #[trigger] of_rank(r@, x) == of_rank(a0 + b0, x) by {
            lemma_of_rank_none(a@, x);
            lemma_of_rank_none(b@, x);
            assert(of_rank(a@, x) + of_rank(b@, x) + of_rank(r@, x) == of_rank(a0 + b0, x));
            assert(of_rank(a@, x) + of_rank(b@, x) + of_rank(r@, x) =~= of_rank(r@, x));
        }
    }
    r
}

/// Sort by rank; values of one rank keep their order.
pub fn stable_sort<T: Ranked>(v: Vec<T>) -> (r: Vec<T>)
    ensures
        stably_sorted(v@, r@),
        r@.len() == v@.len(),
    decreases v@.len(),
{
    let ghost v0 = v@;
    if v.len() <= 1 {
        proof {
            if v@.len() == 1 {
                T::ranks_total(v@[0], v@[0]);
            }
        }
        return v;
    }
    let mut front = v;
    let half: usize = front.len() / 2;
    let back = front.split_off(half);
    let ghost f = front@;
    let ghost b = back@;
    assert(f + b =~= v0);
    let front = stable_sort(front);
    let back = stable_sort(back);
    let ghost fs = front@;
    let ghost bs = back@;
    let r = merge(front, back);
    proof {
        lemma_multiset_commutative(f, b);
        lemma_multiset_commutative(fs, bs);
        assert forall|x: T| #[trigger] of_rank(r@, x) == of_rank(v0, x) by {
            lemma_of_rank_add(f, b, x);
            lemma_of_rank_add(fs, bs, x);
        }
        r@.to_multiset_ensures();
        v0.to_multiset_ensures();
    }
    r
}

/// What sorting comes to: nothing ranks above what follows it, nothing is lost
/// or added, and what ranks the same keeps its order.
pub proof fn law_sorting<T: Ranked>(s: Seq<T>, sorted: Seq<T>, i: int, j: int, x: T)
    requires
        stably_sorted(s, sorted),
    ensures
        0 <= i <= j < sorted.len() ==> sorted[i].ranks_le(sorted[j]),
        sorted.to_multiset() == s.to_multiset(),
        sorted.len() == s.len(),
        sorted.filter(|y: T| x.ranks_le(y) && y.ranks_le(x)) == s.filter(
            |y: T| x.ranks_le(y) && y.ranks_le(x),
        ),
{
    s.to_multiset_ensures();
    sorted.to_multiset_ensures();
    let same = |y: T| same_rank(x, y);
    let pred = |y: T| x.ranks_le(y) && y.ranks_le(x);
    assert(same =~= pred);
    assert(of_rank(sorted, x) == of_rank(s, x));
}

} // verus!
