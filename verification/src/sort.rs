//! Stable sorting by a rank.
//!
//! A sort is stable when values of equal rank keep the order in which they
//! came. Here that is stated class by class: for every value `p`, the values
//! that rank with `p` form the same sequence before and after the sort.

use vstd::prelude::*;

verus! {

/// A type whose values are ordered by a rank: a total preorder, in which
/// distinct values may rank equal.
pub trait Ranked: Sized {
    /// Whether `self` ranks no higher than `other`.
    spec fn rank_le(&self, other: &Self) -> bool;

    /// Any two values are comparable.
    proof fn rank_total(a: &Self, b: &Self)
        ensures
            a.rank_le(b) || b.rank_le(a),
    ;

    /// The rank is transitive.
    proof fn rank_transitive(a: &Self, b: &Self, c: &Self)
        requires
            a.rank_le(b),
            b.rank_le(c),
        ensures
            a.rank_le(c),
    ;

    /// Decides `rank_le`.
    fn le(&self, other: &Self) -> (r: bool)
        ensures
            r == self.rank_le(other),
    ;
}

/// Whether `a` and `b` have the same rank.
pub open spec fn same_rank<T: Ranked>(a: T, b: T) -> bool {
    a.rank_le(&b) && b.rank_le(&a)
}

/// The values of `s` that rank with `p`, in the order of `s`.
pub open spec fn of_rank<T: Ranked>(s: Seq<T>, p: T) -> Seq<T> {
    s.filter(|x: T| same_rank(x, p))
}

/// Whether the ranks of `s` never fall from left to right.
pub open spec fn sorted<T: Ranked>(s: Seq<T>) -> bool {
    forall|i: int, j: int| #![trigger s[i], s[j]] 0 <= i < j < s.len() ==> s[i].rank_le(&s[j])
}

/// Whether `r` is `s` sorted by rank with ties left in the order of `s`.
pub open spec fn stable_sort_of<T: Ranked>(r: Seq<T>, s: Seq<T>) -> bool {
    &&& sorted(r)
    &&& r.len() == s.len()
    &&& r.to_multiset() == s.to_multiset()
    &&& forall|p: T| #[trigger] of_rank(r, p) == of_rank(s, p)
}

/// A sort neither adds a value nor loses one.
pub proof fn lemma_sort_keeps_values<T: Ranked>(r: Seq<T>, s: Seq<T>, x: T)
    requires
        stable_sort_of(r, s),
    ensures
        r.contains(x) <==> s.contains(x),
{
    vstd::seq_lib::to_multiset_contains(r, x);
    vstd::seq_lib::to_multiset_contains(s, x);
}

/// No value of a sequence ranks with `p`: the class of `p` is empty.
proof fn lemma_of_rank_empty<T: Ranked>(s: Seq<T>, p: T)
    requires
        forall|i: int| 0 <= i < s.len() ==> !same_rank(#[trigger] s[i], p),
    ensures
        of_rank(s, p) == Seq::<T>::empty(),
{
    let pred = |x: T| same_rank(x, p);
    assert(s.all(|x: T| !pred(x)));
    s.lemma_all_neg_filter_empty(pred);
    assert(of_rank(s, p) =~= Seq::<T>::empty());
}

/// The class of `p` in a sequence with `x` put in front.
proof fn lemma_of_rank_front<T: Ranked>(x: T, s: Seq<T>, p: T)
    ensures
        of_rank(seq![x] + s, p) == if same_rank(x, p) {
            seq![x] + of_rank(s, p)
        } else {
            of_rank(s, p)
        },
{
    let pred = |y: T| same_rank(y, p);
    s.lemma_filter_prepend(x, pred);
    assert(Seq::<T>::empty() + of_rank(s, p) =~= of_rank(s, p));
}

/// Where two orderings of one sequence agree before place `i` and in the
/// class of the value that the first has at `i`, the second has that value
/// at `i` or later, and at `i` where it has a value of that class there.
proof fn lemma_occurs_from<T: Ranked>(a: Seq<T>, b: Seq<T>, i: int)
    requires
        0 <= i < a.len(),
        a.len() == b.len(),
        a.take(i) == b.take(i),
        of_rank(a, a[i]) == of_rank(b, a[i]),
    ensures
        exists|j: int| i <= j < b.len() && b[j] == a[i],
        same_rank(b[i], a[i]) ==> b[i] == a[i],
{
    let x = a[i];
    let pred = |v: T| same_rank(v, x);
    let pre = of_rank(a.take(i), x);
    let fa = of_rank(a.skip(i), x);
    let fb = of_rank(b.skip(i), x);
    assert(a =~= a.take(i) + a.skip(i));
    assert(b =~= b.take(i) + b.skip(i));
    Seq::filter_distributes_over_add(a.take(i), a.skip(i), pred);
    Seq::filter_distributes_over_add(b.take(i), b.skip(i), pred);
    assert(pre + fa == pre + fb);
    assert(fa =~= fb) by {
        assert((pre + fa).len() == (pre + fb).len());
        assert forall|k: int| 0 <= k < fa.len() implies fa[k] == fb[k] by {
            assert((pre + fa)[pre.len() + k] == fa[k]);
            assert((pre + fb)[pre.len() + k] == fb[k]);
        }
    }
    T::rank_total(&x, &x);
    assert(a.skip(i) =~= seq![x] + a.skip(i + 1));
    lemma_of_rank_front(x, a.skip(i + 1), x);
    assert(fa[0] == x);
    assert(fb.contains(x)) by {
        assert(fb[0] == x);
    }
    b.skip(i).lemma_filter_contains_rev(pred, x);
    let m = choose|m: int| 0 <= m < b.skip(i).len() && b.skip(i)[m] == x;
    assert(b[i + m] == x);
    if same_rank(b[i], x) {
        assert(b.skip(i) =~= seq![b[i]] + b.skip(i + 1));
        lemma_of_rank_front(b[i], b.skip(i + 1), x);
        assert(fb[0] == b[i]);
    }
}

/// Two stable sorts of one sequence agree in their first `n` values.
proof fn lemma_same_prefix<T: Ranked>(a: Seq<T>, b: Seq<T>, n: int)
    requires
        sorted(a),
        sorted(b),
        a.len() == b.len(),
        forall|p: T| #[trigger] of_rank(a, p) == of_rank(b, p),
        0 <= n <= a.len(),
    ensures
        a.take(n) == b.take(n),
    decreases n,
{
    if n > 0 {
        let i = n - 1;
        lemma_same_prefix(a, b, i);
        let x = a[i];
        let y = b[i];
        assert(of_rank(a, x) == of_rank(b, x));
        assert(of_rank(b, y) == of_rank(a, y));
        lemma_occurs_from(a, b, i);
        lemma_occurs_from(b, a, i);
        if x != y {
            let j = choose|j: int| i <= j < b.len() && b[j] == x;
            let k = choose|k: int| i <= k < a.len() && a[k] == y;
            assert(b[i].rank_le(&b[j]));
            assert(a[i].rank_le(&a[k]));
        }
        assert(a.take(n) =~= a.take(i).push(x));
        assert(b.take(n) =~= b.take(i).push(y));
    }
}

/// A sequence has one stable sort and no other.
pub proof fn lemma_stable_sort_unique<T: Ranked>(a: Seq<T>, b: Seq<T>, s: Seq<T>)
    requires
        stable_sort_of(a, s),
        stable_sort_of(b, s),
    ensures
        a == b,
{
    assert forall|p: T| #[trigger] of_rank(a, p) == of_rank(b, p) by {
        assert(of_rank(a, p) == of_rank(s, p));
        assert(of_rank(b, p) == of_rank(s, p));
    }
    lemma_same_prefix(a, b, a.len() as int);
    assert(a.take(a.len() as int) =~= a);
    assert(b.take(b.len() as int) =~= b);
}

/// Merges two sorted vectors. Where a value of `a` and a value of `b` rank
/// equal, the one of `a` comes first.
fn merge<T: Ranked>(a: Vec<T>, b: Vec<T>) -> (r: Vec<T>)
    requires
        sorted(a@),
        sorted(b@),
    ensures
        sorted(r@),
        r@.len() == a@.len() + b@.len(),
        r@.to_multiset() == a@.to_multiset().add(b@.to_multiset()),
        forall|p: T| #[trigger] of_rank(r@, p) == of_rank(a@, p) + of_rank(b@, p),
{
    let ghost a0 = a@;
    let ghost b0 = b@;
    let mut a = a;
    let mut b = b;
    // The merged values from the greatest down; `tail` is what they are in
    // rising order.
    let mut back: Vec<T> = Vec::new();
    let ghost mut tail: Seq<T> = Seq::empty();
    proof {
        assert(a0.skip(a0.len() as int) =~= Seq::<T>::empty());
        assert(b0.skip(b0.len() as int) =~= Seq::<T>::empty());
        assert(tail.reverse() =~= back@);
        assert forall|p: T| #[trigger]
            of_rank(tail, p) == of_rank(a0.skip(a@.len() as int), p) + of_rank(
                b0.skip(b@.len() as int),
                p,
            ) by {
            lemma_of_rank_empty(Seq::<T>::empty(), p);
            assert(Seq::<T>::empty() + Seq::<T>::empty() =~= Seq::<T>::empty());
        }
        assert(a@ =~= a0.take(a@.len() as int));
        assert(b@ =~= b0.take(b@.len() as int));
        assert(Seq::<T>::empty().to_multiset() =~= Seq::<T>::empty().to_multiset().add(
            Seq::<T>::empty().to_multiset(),
        )) by {
            vstd::seq_lib::lemma_multiset_commutative(Seq::<T>::empty(), Seq::<T>::empty());
            assert(Seq::<T>::empty() + Seq::<T>::empty() =~= Seq::<T>::empty());
        }
    }
    while a.len() > 0 || b.len() > 0
        invariant
            a@.len() <= a0.len(),
            b@.len() <= b0.len(),
            a@ == a0.take(a@.len() as int),
            b@ == b0.take(b@.len() as int),
            sorted(a0),
            sorted(b0),
            back@ == tail.reverse(),
            sorted(tail),
            tail.len() == (a0.len() - a@.len()) + (b0.len() - b@.len()),
            forall|i: int, j: int|
                #![trigger a0[i], tail[j]]
                0 <= i < a@.len() && 0 <= j < tail.len() ==> a0[i].rank_le(&tail[j]),
            forall|i: int, j: int|
                #![trigger b0[i], tail[j]]
                0 <= i < b@.len() && 0 <= j < tail.len() ==> b0[i].rank_le(&tail[j]),
            forall|i: int, j: int|
                #![trigger a0[i], b0[j]]
                a@.len() <= i < a0.len() && 0 <= j < b@.len() ==> !a0[i].rank_le(&b0[j]),
            tail.to_multiset() == a0.skip(a@.len() as int).to_multiset().add(
                b0.skip(b@.len() as int).to_multiset(),
            ),
            forall|p: T| #[trigger]
                of_rank(tail, p) == of_rank(a0.skip(a@.len() as int), p) + of_rank(
                    b0.skip(b@.len() as int),
                    p,
                ),
        decreases a@.len() + b@.len(),
    {
        let ghost n = a@.len() as int;
        let ghost m = b@.len() as int;
        let take_b = if a.len() == 0 {
            true
        } else if b.len() == 0 {
            false
        } else {
            a[a.len() - 1].le(&b[b.len() - 1])
        };
        if take_b {
            let y = b.pop().unwrap();
            back.push(y);
            proof {
                let new_tail = seq![y] + tail;
                assert(y == b0[m - 1]);
                assert(back@ =~= new_tail.reverse());
                assert(b@ =~= b0.take(m - 1));
                assert(b0.skip(m - 1) =~= seq![y] + b0.skip(m));
                // The new head is no greater than what follows it.
                assert(sorted(new_tail)) by {
                    assert forall|i: int, j: int|
                        #![trigger new_tail[i], new_tail[j]]
                        0 <= i < j < new_tail.len() implies new_tail[i].rank_le(&new_tail[j]) by {
                        if i == 0 {
                            assert(new_tail[j] == tail[j - 1]);
                            assert(b0[m - 1].rank_le(&tail[j - 1]));
                        } else {
                            assert(new_tail[i] == tail[i - 1]);
                            assert(new_tail[j] == tail[j - 1]);
                        }
                    }
                }
                // What is left is no greater than the new head.
                assert forall|i: int, j: int|
                    #![trigger a0[i], new_tail[j]]
                    0 <= i < n && 0 <= j < new_tail.len() implies a0[i].rank_le(&new_tail[j]) by {
                    if j == 0 {
                        if n > 0 {
                            assert(a@[n - 1] == a0[n - 1]);
                            assert(a0[n - 1].rank_le(&y));
                            if i < n - 1 {
                                assert(a0[i].rank_le(&a0[n - 1]));
                                T::rank_transitive(&a0[i], &a0[n - 1], &y);
                            }
                        }
                    } else {
                        assert(new_tail[j] == tail[j - 1]);
                    }
                }
                assert forall|i: int, j: int|
                    #![trigger b0[i], new_tail[j]]
                    0 <= i < m - 1 && 0 <= j < new_tail.len() implies b0[i].rank_le(
                    &new_tail[j],
                ) by {
                    if j == 0 {
                        assert(b0[i].rank_le(&b0[m - 1]));
                    } else {
                        assert(new_tail[j] == tail[j - 1]);
                    }
                }
                assert(new_tail.to_multiset() == a0.skip(n).to_multiset().add(
                    b0.skip(m - 1).to_multiset(),
                )) by {
                    vstd::seq_lib::lemma_multiset_commutative(seq![y], tail);
                    vstd::seq_lib::lemma_multiset_commutative(seq![y], b0.skip(m));
                    assert(new_tail.to_multiset() =~= a0.skip(n).to_multiset().add(
                        b0.skip(m - 1).to_multiset(),
                    ));
                }
                assert forall|p: T| #[trigger]
                    of_rank(new_tail, p) == of_rank(a0.skip(n), p) + of_rank(
                        b0.skip(m - 1),
                        p,
                    ) by {
                    lemma_of_rank_front(y, tail, p);
                    lemma_of_rank_front(y, b0.skip(m), p);
                    assert(of_rank(tail, p) == of_rank(a0.skip(n), p) + of_rank(b0.skip(m), p));
                    if same_rank(y, p) {
                        // Every value already taken from `a` ranks above `y`.
                        assert forall|i: int| 0 <= i < a0.skip(n).len() implies !same_rank(
                            #[trigger] a0.skip(n)[i],
                            p,
                        ) by {
                            let x = a0.skip(n)[i];
                            assert(x == a0[n + i]);
                            assert(!a0[n + i].rank_le(&b0[m - 1]));
                            if same_rank(x, p) {
                                T::rank_transitive(&x, &p, &y);
                            }
                        }
                        lemma_of_rank_empty(a0.skip(n), p);
                        assert(seq![y] + (Seq::<T>::empty() + of_rank(b0.skip(m), p))
                            =~= Seq::<T>::empty() + (seq![y] + of_rank(b0.skip(m), p)));
                    }
                }
                tail = new_tail;
            }
        } else {
            let x = a.pop().unwrap();
            back.push(x);
            proof {
                let new_tail = seq![x] + tail;
                assert(x == a0[n - 1]);
                assert(back@ =~= new_tail.reverse());
                assert(a@ =~= a0.take(n - 1));
                assert(a0.skip(n - 1) =~= seq![x] + a0.skip(n));
                if m > 0 {
                    assert(b@[m - 1] == b0[m - 1]);
                    assert(!a0[n - 1].rank_le(&b0[m - 1]));
                    T::rank_total(&a0[n - 1], &b0[m - 1]);
                }
                assert(sorted(new_tail)) by {
                    assert forall|i: int, j: int|
                        #![trigger new_tail[i], new_tail[j]]
                        0 <= i < j < new_tail.len() implies new_tail[i].rank_le(&new_tail[j]) by {
                        if i == 0 {
                            assert(new_tail[j] == tail[j - 1]);
                            assert(a0[n - 1].rank_le(&tail[j - 1]));
                        } else {
                            assert(new_tail[i] == tail[i - 1]);
                            assert(new_tail[j] == tail[j - 1]);
                        }
                    }
                }
                assert forall|i: int, j: int|
                    #![trigger a0[i], new_tail[j]]
                    0 <= i < n - 1 && 0 <= j < new_tail.len() implies a0[i].rank_le(
                    &new_tail[j],
                ) by {
                    if j == 0 {
                        assert(a0[i].rank_le(&a0[n - 1]));
                    } else {
                        assert(new_tail[j] == tail[j - 1]);
                    }
                }
                assert forall|i: int, j: int|
                    #![trigger b0[i], new_tail[j]]
                    0 <= i < m && 0 <= j < new_tail.len() implies b0[i].rank_le(&new_tail[j]) by {
                    if j == 0 {
                        assert(b0[m - 1].rank_le(&x));
                        if i < m - 1 {
                            assert(b0[i].rank_le(&b0[m - 1]));
                            T::rank_transitive(&b0[i], &b0[m - 1], &x);
                        }
                    } else {
                        assert(new_tail[j] == tail[j - 1]);
                    }
                }
                // The value taken ranks above all that is left of `b`.
                assert forall|i: int, j: int|
                    #![trigger a0[i], b0[j]]
                    n - 1 <= i < a0.len() && 0 <= j < m implies !a0[i].rank_le(&b0[j]) by {
                    if i == n - 1 {
                        if a0[i].rank_le(&b0[j]) {
                            if j < m - 1 {
                                assert(b0[j].rank_le(&b0[m - 1]));
                                T::rank_transitive(&a0[i], &b0[j], &b0[m - 1]);
                            }
                        }
                    }
                }
                assert(new_tail.to_multiset() == a0.skip(n - 1).to_multiset().add(
                    b0.skip(m).to_multiset(),
                )) by {
                    vstd::seq_lib::lemma_multiset_commutative(seq![x], tail);
                    vstd::seq_lib::lemma_multiset_commutative(seq![x], a0.skip(n));
                    assert(new_tail.to_multiset() =~= a0.skip(n - 1).to_multiset().add(
                        b0.skip(m).to_multiset(),
                    ));
                }
                assert forall|p: T| #[trigger]
                    of_rank(new_tail, p) == of_rank(a0.skip(n - 1), p) + of_rank(
                        b0.skip(m),
                        p,
                    ) by {
                    lemma_of_rank_front(x, tail, p);
                    lemma_of_rank_front(x, a0.skip(n), p);
                    assert(of_rank(tail, p) == of_rank(a0.skip(n), p) + of_rank(b0.skip(m), p));
                    if same_rank(x, p) {
                        assert(seq![x] + (of_rank(a0.skip(n), p) + of_rank(b0.skip(m), p)) =~= (
                        seq![x] + of_rank(a0.skip(n), p)) + of_rank(b0.skip(m), p));
                    }
                }
                tail = new_tail;
            }
        }
    }
    proof {
        assert(a0.skip(0) =~= a0);
        assert(b0.skip(0) =~= b0);
    }
    let mut r: Vec<T> = Vec::new();
    while back.len() > 0
        invariant
            r@.len() + back@.len() == tail.len(),
            back@ == tail.reverse().take(back@.len() as int),
            r@ == tail.take(r@.len() as int),
        decreases back@.len(),
    {
        let ghost k = back@.len() as int;
        let x = back.pop().unwrap();
        r.push(x);
        proof {
            assert(x == tail.reverse()[k - 1]);
            assert(back@ =~= tail.reverse().take(k - 1));
            assert(r@ =~= tail.take(r@.len() as int));
        }
    }
    proof {
        assert(r@ =~= tail);
    }
    r
}

/// Sorts `v` by rank, leaving values of equal rank in the order in which
/// they came.
pub fn stable_sort<T: Ranked>(v: Vec<T>) -> (r: Vec<T>)
    ensures
        stable_sort_of(r@, v@),
    decreases v@.len(),
{
    let ghost s = v@;
    if v.len() <= 1 {
        return v;
    }
    let mut left = v;
    let mid = left.len() / 2;
    let right = left.split_off(mid);
    let ghost ls = left@;
    let ghost rs = right@;
    let l = stable_sort(left);
    let r = stable_sort(right);
    let out = merge(l, r);
    proof {
        assert(s =~= ls + rs);
        vstd::seq_lib::lemma_multiset_commutative(ls, rs);
        assert forall|p: T| #[trigger] of_rank(out@, p) == of_rank(s, p) by {
            Seq::filter_distributes_over_add(ls, rs, |x: T| same_rank(x, p));
            assert(of_rank(l@, p) == of_rank(ls, p));
            assert(of_rank(r@, p) == of_rank(rs, p));
        }
    }
    out
}

} // verus!
