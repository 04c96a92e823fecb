//! Canonical ordering of combining marks: the mathematical model of the
//! stable, combining-class reordering that the decomposition transform
//! applies, and its laws.
//!
//! A decomposed stream falls into runs: maximal stretches of code points
//! with nonzero combining class, separated by class-0 (starter) code
//! points. Canonical ordering sorts each run by combining class with a
//! stable sort; starters never move.

use vstd::prelude::*;

use vstd::multiset::Multiset;

use crate::provider::combining_class_of;

verus! {

/// Inserts `x` into `t` from the right, skipping every element whose
/// combining class exceeds `x`'s. On a sorted `t` this places `x` after
/// all elements of equal or lower class, so equal-class elements keep
/// their arrival order.
pub open spec fn class_insert(t: Seq<char>, x: char) -> Seq<char>
    decreases t.len(),
{
    if t.len() == 0 {
        seq![x]
    } else if combining_class_of(t.last()) > combining_class_of(x) {
        class_insert(t.drop_last(), x).push(t.last())
    } else {
        t.push(x)
    }
}

/// The stable sort of a run by combining class: each element inserted, in
/// arrival order, after all elements of equal or lower class.
pub open spec fn class_sort(s: Seq<char>) -> Seq<char>
    decreases s.len(),
{
    if s.len() == 0 {
        s
    } else {
        class_insert(class_sort(s.drop_last()), s.last())
    }
}

/// Combining classes are non-decreasing along `s`.
pub open spec fn classes_sorted(s: Seq<char>) -> bool {
    forall|i: int, j: int|
        0 <= i < j < s.len() ==> combining_class_of(s[i]) <= combining_class_of(s[j])
}

/// The subsequence of elements of `s` whose combining class is `k`, in
/// order.
pub open spec fn class_members(s: Seq<char>, k: u8) -> Seq<char>
    decreases s.len(),
{
    if s.len() == 0 {
        s
    } else if combining_class_of(s.last()) == k {
        class_members(s.drop_last(), k).push(s.last())
    } else {
        class_members(s.drop_last(), k)
    }
}

/// The canonically ordered form of a decomposed stream, given a run of
/// nonzero-class code points already pending: pending and incoming
/// nonzero-class code points accumulate into runs, each run is stably
/// sorted, and each class-0 code point closes the run before it.
pub open spec fn reorder_pending(run: Seq<char>, s: Seq<char>) -> Seq<char>
    decreases s.len(),
{
    if s.len() == 0 {
        class_sort(run)
    } else if combining_class_of(s[0]) == 0 {
        class_sort(run) + seq![s[0]] + reorder_pending(Seq::empty(), s.drop_first())
    } else {
        reorder_pending(run.push(s[0]), s.drop_first())
    }
}

/// The canonical ordering of a whole decomposed sequence.
pub open spec fn reorder(s: Seq<char>) -> Seq<char> {
    reorder_pending(Seq::empty(), s)
}

/// Inserting into a class-sorted sequence keeps it class-sorted.
proof fn lemma_class_insert_sorted(t: Seq<char>, x: char)
    requires
        classes_sorted(t),
    ensures
        classes_sorted(class_insert(t, x)),
    decreases t.len(),
{
    if t.len() == 0 {
    } else if combining_class_of(t.last()) > combining_class_of(x) {
        assert(classes_sorted(t.drop_last()));
        lemma_class_insert_sorted(t.drop_last(), x);
        let w = class_insert(t.drop_last(), x);
        lemma_class_insert_members_bound(t.drop_last(), x);
        assert forall|i: int, j: int|
            0 <= i < j < w.push(t.last()).len() implies combining_class_of(w.push(t.last())[i])
            <= combining_class_of(w.push(t.last())[j]) by {
            if j < w.len() {
            } else {
                assert(w.push(t.last())[j] == t.last());
            }
        }
    } else {
        assert forall|i: int, j: int|
            0 <= i < j < t.push(x).len() implies combining_class_of(t.push(x)[i])
            <= combining_class_of(t.push(x)[j]) by {
            if j < t.len() {
            } else {
                assert(t.push(x)[j] == x);
                if i < t.len() - 1 {
                    assert(combining_class_of(t[i]) <= combining_class_of(t.last()));
                }
            }
        }
    }
}

/// Every element of `class_insert(t, x)` is an element of `t` or is `x`,
/// and its class is bounded by the largest class present.
proof fn lemma_class_insert_members_bound(t: Seq<char>, x: char)
    ensures
        class_insert(t, x).len() == t.len() + 1,
        forall|i: int|
            0 <= i < class_insert(t, x).len() ==> (exists|j: int|
                0 <= j < t.len() && #[trigger] class_insert(t, x)[i] == t[j]) || class_insert(
                t,
                x,
            )[i] == x,
    decreases t.len(),
{
    if t.len() == 0 {
    } else if combining_class_of(t.last()) > combining_class_of(x) {
        lemma_class_insert_members_bound(t.drop_last(), x);
        let w = class_insert(t.drop_last(), x);
        assert forall|i: int|
            0 <= i < w.push(t.last()).len() implies (exists|j: int|
                0 <= j < t.len() && #[trigger] w.push(t.last())[i] == t[j]) || w.push(t.last())[i]
            == x by {
            if i < w.len() {
                assert(w.push(t.last())[i] == w[i]);
                if exists|j: int| 0 <= j < t.drop_last().len() && w[i] == t.drop_last()[j] {
                    let j = choose|j: int| 0 <= j < t.drop_last().len() && w[i] == t.drop_last()[j];
                    assert(t.drop_last()[j] == t[j]);
                }
            } else {
                assert(w.push(t.last())[i] == t.last());
                assert(t.last() == t[t.len() - 1]);
            }
        }
    } else {
        assert forall|i: int|
            0 <= i < t.push(x).len() implies (exists|j: int|
                0 <= j < t.len() && #[trigger] t.push(x)[i] == t[j]) || t.push(x)[i] == x by {
            if i < t.len() {
                assert(t.push(x)[i] == t[i]);
            } else {
                assert(t.push(x)[i] == x);
            }
        }
    }
}

/// The stable sort keeps the run's length.
pub proof fn lemma_class_sort_len(s: Seq<char>)
    ensures
        class_sort(s).len() == s.len(),
    decreases s.len(),
{
    if s.len() > 0 {
        lemma_class_sort_len(s.drop_last());
        lemma_class_insert_members_bound(class_sort(s.drop_last()), s.last());
    }
}

/// Reordering emits exactly the pending run and the stream, in some order.
pub proof fn lemma_reorder_pending_len(run: Seq<char>, s: Seq<char>)
    ensures
        reorder_pending(run, s).len() == run.len() + s.len(),
    decreases s.len(),
{
    if s.len() == 0 {
        lemma_class_sort_len(run);
    } else if combining_class_of(s[0]) == 0 {
        lemma_class_sort_len(run);
        lemma_reorder_pending_len(Seq::empty(), s.drop_first());
    } else {
        lemma_reorder_pending_len(run.push(s[0]), s.drop_first());
    }
}

/// Elements pairwise in order whenever adjacent are in order.
pub(crate) proof fn lemma_adjacent_classes_sorted(s: Seq<char>)
    requires
        forall|i: int|
            0 <= i < s.len() - 1 ==> combining_class_of(#[trigger] s[i]) <= combining_class_of(
                s[i + 1],
            ),
    ensures
        classes_sorted(s),
{
    assert forall|i: int, j: int|
        0 <= i < j < s.len() implies combining_class_of(s[i]) <= combining_class_of(s[j]) by {
        lemma_class_chain(s, i, j);
    }
}

/// Transitive chain of adjacent class orderings.
proof fn lemma_class_chain(s: Seq<char>, i: int, j: int)
    requires
        forall|l: int|
            0 <= l < s.len() - 1 ==> combining_class_of(#[trigger] s[l]) <= combining_class_of(
                s[l + 1],
            ),
        0 <= i <= j < s.len(),
    ensures
        combining_class_of(s[i]) <= combining_class_of(s[j]),
    decreases j - i,
{
    if i < j {
        lemma_class_chain(s, i, j - 1);
        assert(combining_class_of(s[j - 1]) <= combining_class_of(s[j]));
    }
}

/// The stable sort of a run is class-sorted.
pub proof fn lemma_class_sort_sorted(s: Seq<char>)
    ensures
        classes_sorted(class_sort(s)),
    decreases s.len(),
{
    if s.len() > 0 {
        lemma_class_sort_sorted(s.drop_last());
        lemma_class_insert_sorted(class_sort(s.drop_last()), s.last());
    }
}

/// A sequence that is already class-sorted is its own stable sort.
pub(crate) proof fn lemma_class_sort_of_sorted(s: Seq<char>)
    requires
        classes_sorted(s),
    ensures
        class_sort(s) == s,
    decreases s.len(),
{
    if s.len() > 0 {
        assert(classes_sorted(s.drop_last()));
        lemma_class_sort_of_sorted(s.drop_last());
        if s.len() > 1 {
            assert(combining_class_of(s.drop_last().last()) <= combining_class_of(s.last()));
        }
        assert(class_insert(s.drop_last(), s.last()) == s.drop_last().push(s.last()));
        assert(s.drop_last().push(s.last()) =~= s);
    }
}

/// Stability: for every class, the stable sort keeps the class's elements
/// in their original order.
pub proof fn lemma_class_sort_stable(s: Seq<char>, k: u8)
    ensures
        class_members(class_sort(s), k) == class_members(s, k),
    decreases s.len(),
{
    if s.len() > 0 {
        lemma_class_sort_stable(s.drop_last(), k);
        lemma_class_insert_members(class_sort(s.drop_last()), s.last(), k);
        assert(s.drop_last().push(s.last()) =~= s);
        assert(class_members(s, k) == if combining_class_of(s.last()) == k {
            class_members(s.drop_last(), k).push(s.last())
        } else {
            class_members(s.drop_last(), k)
        });
    }
}

/// Inserting `x` appends it to its own class's subsequence and leaves every
/// other class's subsequence unchanged.
proof fn lemma_class_insert_members(t: Seq<char>, x: char, k: u8)
    ensures
        class_members(class_insert(t, x), k) == if combining_class_of(x) == k {
            class_members(t, k).push(x)
        } else {
            class_members(t, k)
        },
    decreases t.len(),
{
    if t.len() == 0 {
        assert(class_insert(t, x) =~= seq![x]);
        assert(seq![x].drop_last() =~= t);
        assert(seq![x].last() == x);
        assert(class_members(seq![x], k) == if combining_class_of(x) == k {
            class_members(t, k).push(x)
        } else {
            class_members(t, k)
        });
    } else if combining_class_of(t.last()) > combining_class_of(x) {
        lemma_class_insert_members(t.drop_last(), x, k);
        let w = class_insert(t.drop_last(), x);
        assert(class_insert(t, x) == w.push(t.last()));
        assert(w.push(t.last()).drop_last() =~= w);
        assert(w.push(t.last()).last() == t.last());
        assert(class_members(w.push(t.last()), k) == if combining_class_of(t.last()) == k {
            class_members(w, k).push(t.last())
        } else {
            class_members(w, k)
        });
        assert(t.drop_last().push(t.last()) =~= t);
        assert(class_members(t, k) == if combining_class_of(t.last()) == k {
            class_members(t.drop_last(), k).push(t.last())
        } else {
            class_members(t.drop_last(), k)
        });
        if combining_class_of(x) == k {
            assert(combining_class_of(t.last()) != k);
        }
    } else {
        assert(class_insert(t, x) == t.push(x));
        assert(t.push(x).drop_last() =~= t);
        assert(t.push(x).last() == x);
        assert(class_members(t.push(x), k) == if combining_class_of(x) == k {
            class_members(t, k).push(x)
        } else {
            class_members(t, k)
        });
    }
}

/// The stable sort permutes the run: same elements, same multiplicities.
pub proof fn lemma_class_sort_multiset(s: Seq<char>)
    ensures
        class_sort(s).to_multiset() == s.to_multiset(),
    decreases s.len(),
{
    broadcast use vstd::seq_lib::group_to_multiset_ensures;

    if s.len() > 0 {
        lemma_class_sort_multiset(s.drop_last());
        lemma_class_insert_multiset(class_sort(s.drop_last()), s.last());
        assert(s.drop_last().push(s.last()) =~= s);
        assert(s.to_multiset() == s.drop_last().to_multiset().insert(s.last()));
    }
}

/// Insertion adds exactly the inserted element to the multiset.
proof fn lemma_class_insert_multiset(t: Seq<char>, x: char)
    ensures
        class_insert(t, x).to_multiset() == t.to_multiset().insert(x),
    decreases t.len(),
{
    broadcast use vstd::seq_lib::group_to_multiset_ensures;

    if t.len() == 0 {
        assert(class_insert(t, x) =~= Seq::<char>::empty().push(x));
        assert(t.to_multiset() =~= Multiset::<char>::empty());
    } else if combining_class_of(t.last()) > combining_class_of(x) {
        lemma_class_insert_multiset(t.drop_last(), x);
        assert(class_insert(t, x).to_multiset() == t.drop_last().to_multiset().insert(x).insert(
            t.last(),
        ));
        assert(t.drop_last().push(t.last()) =~= t);
        assert(t.to_multiset() == t.drop_last().to_multiset().insert(t.last()));
        assert(t.drop_last().to_multiset().insert(x).insert(t.last())
            =~= t.drop_last().to_multiset().insert(t.last()).insert(x));
    } else {
    }
}

/// Reordering emits the pending run and the stream as a permutation: same
/// code points, same multiplicities, nothing added or lost.
proof fn lemma_reorder_pending_multiset(run: Seq<char>, s: Seq<char>)
    ensures
        reorder_pending(run, s).to_multiset() == run.to_multiset().add(s.to_multiset()),
    decreases s.len(),
{
    broadcast use vstd::seq_lib::group_to_multiset_ensures;
    broadcast use vstd::seq_lib::lemma_multiset_commutative;
    broadcast use vstd::multiset::group_multiset_axioms;

    if s.len() == 0 {
        lemma_class_sort_multiset(run);
        assert(s.to_multiset() =~= Multiset::<char>::empty());
        assert(run.to_multiset().add(s.to_multiset()) =~= run.to_multiset());
    } else if combining_class_of(s[0]) == 0 {
        lemma_class_sort_multiset(run);
        lemma_reorder_pending_multiset(Seq::empty(), s.drop_first());
        assert(Seq::<char>::empty().to_multiset() =~= Multiset::<char>::empty());
        assert(seq![s[0]] + s.drop_first() =~= s);
        assert(seq![s[0]].to_multiset() =~= Multiset::<char>::empty().insert(s[0]));
        assert(reorder_pending(run, s).to_multiset() =~= run.to_multiset().add(s.to_multiset()));
    } else {
        lemma_reorder_pending_multiset(run.push(s[0]), s.drop_first());
        assert(run.push(s[0]).to_multiset() =~= run.to_multiset().insert(s[0]));
        assert(seq![s[0]] + s.drop_first() =~= s);
        assert(seq![s[0]].to_multiset() =~= Multiset::<char>::empty().insert(s[0]));
        assert(reorder_pending(run, s).to_multiset() =~= run.to_multiset().add(s.to_multiset()));
    }
}

/// Canonical ordering permutes the decomposed stream: same code points,
/// same multiplicities, nothing added or lost.
pub proof fn lemma_reorder_multiset(s: Seq<char>)
    ensures
        reorder(s).to_multiset() == s.to_multiset(),
{
    broadcast use vstd::seq_lib::group_to_multiset_ensures;
    broadcast use vstd::multiset::group_multiset_axioms;

    lemma_reorder_pending_multiset(Seq::empty(), s);
    assert(Seq::<char>::empty().to_multiset() =~= Multiset::<char>::empty());
    assert(Multiset::<char>::empty().add(s.to_multiset()) =~= s.to_multiset());
}

/// Inserting two elements of strictly ordered classes lands in the same
/// place in either order.
proof fn lemma_class_insert_commute(t: Seq<char>, a: char, b: char)
    requires
        combining_class_of(a) > combining_class_of(b),
    ensures
        class_insert(class_insert(t, a), b) == class_insert(class_insert(t, b), a),
    decreases t.len(),
{
    if t.len() == 0 {
        assert(class_insert(t, a) =~= seq![a]);
        assert(seq![a].last() == a && seq![a].drop_last() =~= t);
        assert(class_insert(seq![a], b) == class_insert(t, b).push(a));
        assert(class_insert(t, b) =~= seq![b]);
        assert(class_insert(seq![b], a) == seq![b].push(a));
        assert(seq![b].last() == b);
    } else {
        let z = t.last();
        let u = t.drop_last();
        if combining_class_of(z) > combining_class_of(a) {
            lemma_class_insert_commute(u, a, b);
            assert(class_insert(t, a) == class_insert(u, a).push(z));
            assert(class_insert(u, a).push(z).drop_last() =~= class_insert(u, a));
            assert(class_insert(class_insert(t, a), b) == class_insert(
                class_insert(u, a),
                b,
            ).push(z));
            assert(class_insert(t, b) == class_insert(u, b).push(z));
            assert(class_insert(u, b).push(z).drop_last() =~= class_insert(u, b));
            assert(class_insert(class_insert(t, b), a) == class_insert(
                class_insert(u, b),
                a,
            ).push(z));
        } else {
            // `a` lands at the end of `t`.
            assert(class_insert(t, a) == t.push(a));
            assert(t.push(a).last() == a);
            assert(t.push(a).drop_last() =~= t);
            assert(class_insert(class_insert(t, a), b) == class_insert(t, b).push(a));
            if combining_class_of(z) > combining_class_of(b) {
                assert(class_insert(t, b) == class_insert(u, b).push(z));
                assert(class_insert(u, b).push(z).last() == z);
                assert(class_insert(class_insert(t, b), a) == class_insert(u, b).push(z).push(a));
            } else {
                assert(class_insert(t, b) == t.push(b));
                assert(t.push(b).last() == b);
                assert(t.push(b).drop_last() =~= t);
                assert(class_insert(class_insert(t, b), a) == t.push(b).push(a));
            }
        }
    }
}

/// Swapping an adjacent, strictly out-of-order pair does not change the
/// stable sort.
pub(crate) proof fn lemma_class_sort_swap(s: Seq<char>, i: int)
    requires
        0 <= i,
        i + 1 < s.len(),
        combining_class_of(s[i]) > combining_class_of(s[i + 1]),
    ensures
        class_sort(s.update(i, s[i + 1]).update(i + 1, s[i])) == class_sort(s),
    decreases s.len(),
{
    let s2 = s.update(i, s[i + 1]).update(i + 1, s[i]);
    if i + 1 == s.len() - 1 {
        let u = s.drop_last().drop_last();
        let a = s[i];
        let b = s[i + 1];
        assert(s.drop_last().last() == a);
        assert(s.drop_last().drop_last() =~= u);
        assert(class_sort(s.drop_last()) == class_insert(class_sort(u), a));
        assert(class_sort(s) == class_insert(class_insert(class_sort(u), a), b));
        assert(s2.last() == a);
        assert(s2.drop_last().last() == b);
        assert(s2.drop_last().drop_last() =~= u);
        assert(class_sort(s2.drop_last()) == class_insert(class_sort(u), b));
        assert(class_sort(s2) == class_insert(class_insert(class_sort(u), b), a));
        lemma_class_insert_commute(class_sort(u), a, b);
    } else {
        assert(s2.last() == s.last());
        assert(s2.drop_last() =~= s.drop_last().update(i, s.drop_last()[i + 1]).update(
            i + 1,
            s.drop_last()[i],
        ));
        lemma_class_sort_swap(s.drop_last(), i);
    }
}

/// Closing a run: when the rest of the stream opens with a starter (or is
/// empty), a decomposed stream reorders as its first part followed,
/// independently, by the rest. This is the streaming boundary: output
/// before a starter never depends on input after it.
proof fn lemma_reorder_pending_boundary(run: Seq<char>, a: Seq<char>, b: Seq<char>)
    requires
        b.len() > 0 ==> combining_class_of(b[0]) == 0,
    ensures
        reorder_pending(run, a + b) == reorder_pending(run, a) + reorder(b),
    decreases a.len(),
{
    if a.len() == 0 {
        assert(a + b =~= b);
        if b.len() == 0 {
            assert(reorder(b) =~= Seq::<char>::empty());
            assert(reorder_pending(run, a) + reorder(b) =~= class_sort(run));
        } else {
            assert(reorder_pending(run, b) == class_sort(run) + seq![b[0]] + reorder_pending(
                Seq::empty(),
                b.drop_first(),
            ));
            assert(reorder(b) == class_sort(Seq::empty()) + seq![b[0]] + reorder_pending(
                Seq::empty(),
                b.drop_first(),
            ));
            assert(class_sort(Seq::<char>::empty()) =~= Seq::<char>::empty());
            assert(reorder_pending(run, a) + reorder(b) =~= class_sort(run) + seq![b[0]]
                + reorder_pending(Seq::empty(), b.drop_first()));
        }
    } else {
        assert((a + b)[0] == a[0]);
        assert((a + b).drop_first() =~= a.drop_first() + b);
        if combining_class_of(a[0]) == 0 {
            lemma_reorder_pending_boundary(Seq::empty(), a.drop_first(), b);
            assert(reorder_pending(run, a + b) =~= reorder_pending(run, a) + reorder(b));
        } else {
            lemma_reorder_pending_boundary(run.push(a[0]), a.drop_first(), b);
        }
    }
}

/// The streaming boundary at the top level: a decomposed sequence whose
/// second part is empty or opens with a starter reorders piecewise, so the
/// output for the first part never depends on the second.
pub proof fn lemma_reorder_concat_at_starter(a: Seq<char>, b: Seq<char>)
    ensures
        (b.len() > 0 ==> combining_class_of(b[0]) == 0) ==> reorder(a + b) == reorder(a)
            + reorder(b),
{
    if b.len() == 0 || combining_class_of(b[0]) == 0 {
        lemma_reorder_pending_boundary(Seq::empty(), a, b);
    }
}

} // verus!
