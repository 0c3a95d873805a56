use vstd::prelude::*;
use vstd::relations::{sorted_by, total_ordering};
use vstd::seq_lib::{group_to_multiset_ensures, lemma_sorted_unique, to_multiset_len};
use vstd::std_specs::cmp::{PartialOrdIs, PartialOrdSpec};

verus! {

/// The order of `T` as a relation: `a` comes no later than `b`.
pub open spec fn leq<T: PartialOrd>() -> spec_fn(T, T) -> bool {
    |a: T, b: T| a.is_le(&b)
}

/// A clone of a value is equal to it.
pub open spec fn exact_clone<T: Clone>() -> bool {
    forall|a: T, b: T| #[trigger] cloned(a, b) ==> a == b
}

/// `<=` on `T` is a total order.
pub open spec fn total_order<T: PartialOrd>() -> bool {
    &&& T::obeys_partial_cmp_spec()
    &&& total_ordering(leq::<T>())
}

/// `==` on `T` is equality of values.
pub open spec fn plain_equality<T: PartialEq>() -> bool {
    vstd::laws_eq::obeys_concrete_eq::<T>()
}

/// What the engine needs of a point type: `<=` is a total order, `==` is
/// equality of values, and a clone equals its source.
pub open spec fn lawful<T: Ord + Clone>() -> bool {
    &&& total_order::<T>()
    &&& plain_equality::<T>()
    &&& exact_clone::<T>()
}

/// A sequence is in canonical form when it ascends in the order of `T`.
pub open spec fn ascending<T: PartialOrd>(s: Seq<T>) -> bool {
    sorted_by(s, leq::<T>())
}

/// The canonical form of a group: its members in ascending order.
pub open spec fn canonical<T: PartialOrd>(s: Seq<T>) -> Seq<T> {
    s.sort_by(leq::<T>())
}

/// The canonical form ascends and holds exactly the members of the group.
pub proof fn lemma_canonical<T: PartialOrd>(s: Seq<T>)
    requires
        total_ordering(leq::<T>()),
    ensures
        ascending(canonical(s)),
        canonical(s).to_multiset() == s.to_multiset(),
        canonical(s).len() == s.len(),
{
    s.lemma_sort_by_ensures(leq::<T>());
    to_multiset_len(s);
    to_multiset_len(canonical(s));
}

/// An ascending sequence with the members of `s` is the canonical form of `s`.
pub proof fn lemma_canonical_unique<T: PartialOrd>(s: Seq<T>, t: Seq<T>)
    requires
        total_ordering(leq::<T>()),
        ascending(t),
        t.to_multiset() == s.to_multiset(),
    ensures
        t == canonical(s),
{
    lemma_canonical(s);
    lemma_sorted_unique(t, canonical(s), leq::<T>());
}

/// Every member comes no earlier than the one after it.
spec fn descending<T: PartialOrd>(s: Seq<T>) -> bool {
    forall|i: int, j: int| 0 <= i < j < s.len() ==> #[trigger] leq::<T>()(s[j], s[i])
}

/// No member of `low` comes later than a member of `high`.
spec fn all_below<T: PartialOrd>(low: Seq<T>, high: Seq<T>) -> bool {
    forall|i: int, j: int|
        0 <= i < low.len() && 0 <= j < high.len() ==> #[trigger] leq::<T>()(low[i], high[j])
}

/// A sequence holds what it held before its last member, and that member.
proof fn lemma_last_out<T>(s: Seq<T>)
    requires
        s.len() > 0,
    ensures
        s.to_multiset() == s.drop_last().to_multiset().insert(s.last()),
{
    broadcast use group_to_multiset_ensures;

    assert(s == s.drop_last().push(s.last()));
}

/// Moves the last member of `from` to the end of `down`.
fn move_last<T: PartialOrd>(from: &mut Vec<T>, down: &mut Vec<T>)
    requires
        old(from)@.len() > 0,
    ensures
        final(from)@ == old(from)@.drop_last(),
        final(down)@ == old(down)@.push(old(from)@.last()),
        old(from)@.to_multiset() == final(from)@.to_multiset().insert(old(from)@.last()),
        final(down)@.to_multiset() == old(down)@.to_multiset().insert(old(from)@.last()),
        ascending(old(from)@) ==> ascending(final(from)@),
        ascending(old(from)@) ==> forall|i: int|
            0 <= i < final(from)@.len() ==> #[trigger] leq::<T>()(
                final(from)@[i],
                old(from)@.last(),
            ),
{
    proof {
        broadcast use group_to_multiset_ensures;

        lemma_last_out(from@);
    }
    let ghost before = from@;
    let x = from.pop().unwrap();
    down.push(x);
    proof {
        assert(from@ == before.drop_last());
        if ascending(before) {
            assert forall|i: int, j: int| 0 <= i < j < from@.len() implies #[trigger] leq::<T>()(
                from@[i],
                from@[j],
            ) by {
                assert(leq::<T>()(before[i], before[j]));
            }
            assert forall|i: int| 0 <= i < from@.len() implies #[trigger] leq::<T>()(
                from@[i],
                before.last(),
            ) by {
                assert(leq::<T>()(before[i], before[before.len() - 1]));
            }
        }
    }
}

/// Merges two ascending vectors into one.
fn merge<T: Ord>(left: Vec<T>, right: Vec<T>) -> (merged: Vec<T>)
    requires
        total_order::<T>(),
        ascending(left@),
        ascending(right@),
    ensures
        ascending(merged@),
        merged@.to_multiset() == left@.to_multiset().add(right@.to_multiset()),
{
    let ghost all = left@.to_multiset().add(right@.to_multiset());
    let mut left = left;
    let mut right = right;
    let mut down: Vec<T> = Vec::new();
    proof {
        broadcast use group_to_multiset_ensures;

        assert(down@.to_multiset() =~= vstd::multiset::Multiset::<T>::empty());
        assert(down@.to_multiset().add(left@.to_multiset()).add(right@.to_multiset()) =~= all);
    }
    while left.len() > 0 || right.len() > 0
        invariant
            total_order::<T>(),
            ascending(left@),
            ascending(right@),
            descending(down@),
            all_below(left@, down@),
            all_below(right@, down@),
            down@.to_multiset().add(left@.to_multiset()).add(right@.to_multiset()) == all,
        decreases left@.len() + right@.len(),
    {
        let ghost was_down = down@;
        let ghost was_left = left@;
        let ghost was_right = right@;
        let from_right = if left.len() == 0 {
            true
        } else if right.len() == 0 {
            false
        } else {
            left[left.len() - 1] <= right[right.len() - 1]
        };
        if from_right {
            move_last(&mut right, &mut down);
        } else {
            move_last(&mut left, &mut down);
        }
        proof {
            broadcast use vstd::multiset::group_multiset_axioms;

            let x = down@.last();
            assert(down@.to_multiset().add(left@.to_multiset()).add(right@.to_multiset()) =~= all);
            assert(x == if from_right {
                was_right.last()
            } else {
                was_left.last()
            });
            assert forall|i: int| 0 <= i < left@.len() implies #[trigger] leq::<T>()(left@[i], x) by {
                if from_right {
                    assert(left@ == was_left);
                    assert(leq::<T>()(was_left.last(), was_right.last()));
                    assert(leq::<T>()(was_left[i], was_left[was_left.len() - 1]));
                } else {
                    assert(leq::<T>()(left@[i], was_left.last()));
                }
            }
            assert forall|i: int| 0 <= i < right@.len() implies #[trigger] leq::<T>()(
                right@[i],
                x,
            ) by {
                if from_right {
                    assert(leq::<T>()(right@[i], was_right.last()));
                } else {
                    assert(right@ == was_right);
                    assert(!leq::<T>()(was_left.last(), was_right.last()));
                    assert(leq::<T>()(was_right.last(), was_left.last()));
                    assert(leq::<T>()(was_right[i], was_right[was_right.len() - 1]));
                }
            }
            assert forall|i: int, j: int| 0 <= i < j < down@.len() implies #[trigger] leq::<T>()(
                down@[j],
                down@[i],
            ) by {
                if j < was_down.len() {
                    assert(leq::<T>()(was_down[j], was_down[i]));
                } else if from_right {
                    assert(leq::<T>()(was_right[was_right.len() - 1], was_down[i]));
                } else {
                    assert(leq::<T>()(was_left[was_left.len() - 1], was_down[i]));
                }
            }
            assert forall|i: int, j: int|
                0 <= i < left@.len() && 0 <= j < down@.len() implies #[trigger] leq::<T>()(
                left@[i],
                down@[j],
            ) by {
                if j < was_down.len() {
                    assert(leq::<T>()(was_left[i], was_down[j]));
                }
            }
            assert forall|i: int, j: int|
                0 <= i < right@.len() && 0 <= j < down@.len() implies #[trigger] leq::<T>()(
                right@[i],
                down@[j],
            ) by {
                if j < was_down.len() {
                    assert(leq::<T>()(was_right[i], was_down[j]));
                }
            }
        }
    }
    let mut merged: Vec<T> = Vec::new();
    proof {
        broadcast use group_to_multiset_ensures;

        assert(merged@.to_multiset().add(down@.to_multiset()) =~= all);
    }
    while down.len() > 0
        invariant
            total_order::<T>(),
            ascending(merged@),
            descending(down@),
            all_below(merged@, down@),
            merged@.to_multiset().add(down@.to_multiset()) == all,
        decreases down@.len(),
    {
        let ghost was_down = down@;
        let ghost was_merged = merged@;
        proof {
            lemma_last_out(down@);
        }
        let x = down.pop().unwrap();
        merged.push(x);
        proof {
            broadcast use group_to_multiset_ensures;

            assert(down@ == was_down.drop_last());
            assert(merged@.to_multiset().add(down@.to_multiset()) =~= all);
            assert forall|i: int, j: int| 0 <= i < j < merged@.len() implies #[trigger] leq::<T>()(
                merged@[i],
                merged@[j],
            ) by {
                if j < was_merged.len() {
                    assert(leq::<T>()(was_merged[i], was_merged[j]));
                } else {
                    assert(leq::<T>()(was_merged[i], was_down[was_down.len() - 1]));
                }
            }
            assert forall|i: int, j: int| 0 <= i < j < down@.len() implies #[trigger] leq::<T>()(
                down@[j],
                down@[i],
            ) by {
                assert(leq::<T>()(was_down[j], was_down[i]));
            }
            assert forall|i: int, j: int|
                0 <= i < merged@.len() && 0 <= j < down@.len() implies #[trigger] leq::<T>()(
                merged@[i],
                down@[j],
            ) by {
                if i < was_merged.len() {
                    assert(leq::<T>()(was_merged[i], was_down[j]));
                } else {
                    assert(leq::<T>()(was_down[was_down.len() - 1], was_down[j]));
                }
            }
        }
    }
    proof {
        broadcast use group_to_multiset_ensures;

        assert(down@.to_multiset() =~= vstd::multiset::Multiset::<T>::empty());
        assert(merged@.to_multiset() =~= all);
    }
    merged
}

/// Sorts the halves of a group and merges them.
fn merge_sort<T: Ord>(group: Vec<T>) -> (sorted: Vec<T>)
    requires
        total_order::<T>(),
    ensures
        sorted@ == canonical(group@),
    decreases group@.len(),
{
    let mut left = group;
    let n: usize = left.len();
    if n <= 1 {
        proof {
            lemma_canonical_unique(left@, left@);
        }
        return left;
    }
    let right = left.split_off(n / 2);
    proof {
        broadcast use vstd::seq_lib::lemma_multiset_commutative;

        assert(group@ == left@ + right@);
        lemma_canonical(left@);
        lemma_canonical(right@);
    }
    let left = merge_sort(left);
    let right = merge_sort(right);
    let merged = merge(left, right);
    proof {
        lemma_canonical_unique(group@, merged@);
    }
    merged
}

/// Sorts a group into its canonical form.
pub fn sort_group<T: Ord>(group: &mut Vec<T>)
    requires
        total_order::<T>(),
    ensures
        final(group)@ == canonical(old(group)@),
{
    let mut taken: Vec<T> = Vec::new();
    std::mem::swap(group, &mut taken);
    *group = merge_sort(taken);
}

} // verus!
