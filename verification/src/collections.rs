//! Sets and maps handed out as sequences, and what holds of such sequences.
use std::collections::HashMap;
use std::collections::HashSet;
use vstd::prelude::*;
use vstd::std_specs::hash::*;
use vstd::std_specs::iter::IteratorSpec;

verus! {

broadcast use vstd::std_specs::hash::group_hash_axioms;

/// The elements of `set`, each once, in the order in which the set hands them
/// out.
pub fn set_to_vec(set: &HashSet<usize>) -> (items: Vec<usize>)
    ensures
        items@.no_duplicates(),
        items@.to_set() == set@,
{
    let mut items: Vec<usize> = Vec::new();
    let ghost all = spec_hash_keys_iter(set).remaining();
    for item in it: set.iter()
        invariant
            it.seq() == all,
            items@.len() == it.index(),
            forall|i: int| 0 <= i < items@.len() ==> items@[i] == *all[i],
    {
        items.push(*item);
    }
    proof {
        assert(items@ =~= all.unref());
        assert forall|i: int, j: int|
            0 <= i < all.len() && 0 <= j < all.len() && i != j implies all.unref()[i]
            != all.unref()[j] by {
            assert(all[i] != all[j]);
        }
    }
    items
}

/// The keys of `map`, each once, in the order in which the map hands them out.
pub fn keys_to_vec<V>(map: &HashMap<usize, V>) -> (keys: Vec<usize>)
    ensures
        keys@.no_duplicates(),
        keys@.to_set() == map@.dom(),
{
    let mut keys: Vec<usize> = Vec::new();
    let ghost all = spec_keys_iter(map).remaining();
    for key in it: map.keys()
        invariant
            it.seq() == all,
            keys@.len() == it.index(),
            forall|i: int| 0 <= i < keys@.len() ==> keys@[i] == *all[i],
    {
        keys.push(*key);
    }
    proof {
        assert(keys@ =~= all.unref());
        assert forall|i: int, j: int|
            0 <= i < all.len() && 0 <= j < all.len() && i != j implies all.unref()[i]
            != all.unref()[j] by {
            assert(all[i] != all[j]);
        }
    }
    keys
}

/// `items` is in ascending order.
pub open spec fn ascending(items: Seq<usize>) -> bool {
    forall|i: int, j: int| 0 <= i <= j < items.len() ==> items[i] <= items[j]
}

/// Sorts `items` with `sort_unstable` of slices: afterwards they are in
/// ascending order, and each value occurs as often as it did before.
#[verifier::external_body]
pub(crate) fn sort_ascending(items: &mut Vec<usize>)
    ensures
        ascending(final(items)@),
        final(items)@.to_multiset() == old(items)@.to_multiset(),
{
    items.sort_unstable();
}

/// A set with the elements of `items`.
pub fn vec_to_set(items: &Vec<usize>) -> (set: HashSet<usize>)
    ensures
        set@ == items@.to_set(),
{
    let mut set: HashSet<usize> = HashSet::new();
    let mut i: usize = 0;
    while i < items.len()
        invariant
            i <= items.len(),
            set@ == items@.take(i as int).to_set(),
        decreases items.len() - i,
    {
        set.insert(items[i]);
        proof {
            let before = items@.take(i as int);
            let after = items@.take(i as int + 1);
            assert(after =~= before.push(items@[i as int]));
            assert(after.to_set() =~= before.to_set().insert(items@[i as int])) by {
                assert forall|x: usize| after.to_set().contains(x) implies before.to_set().insert(
                    items@[i as int],
                ).contains(x) by {
                    let k = choose|k: int| 0 <= k < after.len() && after[k] == x;
                    if k < i {
                        assert(before[k] == x);
                    }
                }
                assert forall|x: usize|
                    before.to_set().insert(items@[i as int]).contains(x) implies after.to_set().contains(
                    x,
                ) by {
                    if x == items@[i as int] {
                        assert(after[i as int] == x);
                    } else {
                        let k = choose|k: int| 0 <= k < before.len() && before[k] == x;
                        assert(after[k] == x);
                    }
                }
            }
        }
        i += 1;
    }
    proof {
        assert(items@.take(items.len() as int) =~= items@);
    }
    set
}

/// The elements of a sequence with one more at its end are those of the
/// sequence and that one; nothing occurs twice if nothing did and the new one
/// is new.
pub proof fn lemma_push_to_set(items: Seq<usize>, item: usize)
    ensures
        items.push(item).to_set() == items.to_set().insert(item),
        items.no_duplicates() && !items.to_set().contains(item) ==> items.push(
            item,
        ).no_duplicates(),
{
    let longer = items.push(item);
    assert forall|x: usize| longer.to_set().contains(x) implies items.to_set().insert(
        item,
    ).contains(x) by {
        let k = choose|k: int| 0 <= k < longer.len() && longer[k] == x;
        if k < items.len() {
            assert(items[k] == x);
        }
    }
    assert forall|x: usize| items.to_set().insert(item).contains(x) implies longer.to_set().contains(
        x,
    ) by {
        if x == item {
            assert(longer[items.len() as int] == x);
        } else {
            let k = choose|k: int| 0 <= k < items.len() && items[k] == x;
            assert(longer[k] == x);
        }
    }
    assert(longer.to_set() =~= items.to_set().insert(item));
    if items.no_duplicates() && !items.to_set().contains(item) {
        assert forall|a: int, b: int|
            0 <= a < longer.len() && 0 <= b < longer.len() && a != b implies longer[a]
            != longer[b] by {
            if a < items.len() {
                assert(items.to_set().contains(items[a]));
            }
            if b < items.len() {
                assert(items.to_set().contains(items[b]));
            }
        }
    }
}

/// Without its first element, a sequence in which nothing occurs twice holds
/// all its elements but that one.
pub proof fn lemma_drop_first_to_set(items: Seq<usize>)
    requires
        items.len() > 0,
        items.no_duplicates(),
    ensures
        items.drop_first().no_duplicates(),
        items.drop_first().to_set() == items.to_set().remove(items[0]),
{
    let rest = items.drop_first();
    assert forall|x: usize| rest.to_set().contains(x) implies items.to_set().remove(
        items[0],
    ).contains(x) by {
        let k = choose|k: int| 0 <= k < rest.len() && rest[k] == x;
        assert(items[k + 1] == x);
    }
    assert forall|x: usize| items.to_set().remove(items[0]).contains(x) implies rest.to_set().contains(
        x,
    ) by {
        let k = choose|k: int| 0 <= k < items.len() && items[k] == x;
        assert(rest[k - 1] == x);
    }
    assert(rest.to_set() =~= items.to_set().remove(items[0]));
}

/// Marking one more vertex of a finite set leaves fewer unmarked.
pub proof fn lemma_unvisited_shrink(ids: Set<usize>, before: Set<usize>, after: Set<usize>, v: usize)
    requires
        ids.finite(),
        ids.contains(v),
        !before.contains(v),
        after == before.insert(v),
    ensures
        ids.difference(after).len() < ids.difference(before).len(),
{
    let left = ids.difference(before);
    assert(ids.difference(after) =~= left.remove(v));
    assert(left.contains(v));
}

/// The elements of the first `count + 1` items are those of the first
/// `count` and the next one.
pub proof fn lemma_take_next<A>(items: Seq<A>, count: int)
    requires
        0 <= count < items.len(),
    ensures
        items.take(count + 1).to_set() == items.take(count).to_set().insert(items[count]),
{
    let shorter = items.take(count);
    let longer = items.take(count + 1);
    assert forall|x: A| longer.to_set().contains(x) implies shorter.to_set().insert(
        items[count],
    ).contains(x) by {
        let k = choose|k: int| 0 <= k < longer.len() && longer[k] == x;
        if k < count {
            assert(shorter[k] == x);
        }
    }
    assert forall|x: A| shorter.to_set().insert(items[count]).contains(x) implies longer.to_set().contains(
        x,
    ) by {
        if x == items[count] {
            assert(longer[count] == x);
        } else {
            let k = choose|k: int| 0 <= k < shorter.len() && shorter[k] == x;
            assert(longer[k] == x);
        }
    }
    assert(longer.to_set() =~= shorter.to_set().insert(items[count]));
}

/// Two sequences that hold each value equally often hold the same values,
/// and if nothing occurs twice in one, nothing does in the other.
pub proof fn lemma_same_items(before: Seq<usize>, after: Seq<usize>)
    requires
        before.to_multiset() == after.to_multiset(),
    ensures
        before.to_set() == after.to_set(),
        before.no_duplicates() ==> after.no_duplicates(),
{
    broadcast use vstd::seq_lib::to_multiset_contains;

    assert forall|x: usize| before.to_set().contains(x) == after.to_set().contains(x) by {
        assert(before.contains(x) <==> before.to_multiset().count(x) > 0);
        assert(after.contains(x) <==> after.to_multiset().count(x) > 0);
    }
    assert(before.to_set() =~= after.to_set());
    if before.no_duplicates() {
        before.lemma_multiset_has_no_duplicates();
        after.lemma_multiset_has_no_duplicates_conv();
    }
}

} // verus!
