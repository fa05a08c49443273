use linked_hash_set::LinkedHashSet;
use std::collections::hash_map::RandomState;
use vstd::prelude::*;

verus! {

/// The set of `linked_hash_set` that keeps its items in the order in which
/// they were put in.
#[verifier::external_type_specification]
#[verifier::external_body]
#[verifier::reject_recursive_types(T)]
#[verifier::reject_recursive_types(S)]
pub struct ExLinkedHashSet<T, S>(LinkedHashSet<T, S>);

/// The items of a set, in the order in which iteration visits them.
pub uninterp spec fn linked_items(set: LinkedHashSet<u32, RandomState>) -> Seq<u32>;

/// The list without every `item`.
pub open spec fn without<T>(items: Seq<T>, item: T) -> Seq<T>
    decreases items.len(),
{
    if items.len() == 0 {
        items
    } else if items.last() == item {
        without(items.drop_last(), item)
    } else {
        without(items.drop_last(), item).push(items.last())
    }
}

/// The list with each item once, where it stood last.
pub open spec fn keep_last<T>(items: Seq<T>) -> Seq<T>
    decreases items.len(),
{
    if items.len() == 0 {
        items
    } else {
        without(keep_last(items.drop_last()), items.last()).push(items.last())
    }
}

/// An empty set.
///
/// Calls `LinkedHashSet::new`, which makes a set without items.
#[verifier::external_body]
fn linked_new() -> (set: LinkedHashSet<u32, RandomState>)
    ensures
        linked_items(set) == Seq::<u32>::empty(),
{
    LinkedHashSet::new()
}

/// Puts an item into a set.
///
/// Calls `LinkedHashSet::insert`. Its documentation says that the item is
/// then the last in the order, whether the set held it before or not, and
/// that the call returns whether the set did not hold it; the other items
/// stay in their order.
#[verifier::external_body]
fn linked_insert(set: &mut LinkedHashSet<u32, RandomState>, item: u32) -> (added: bool)
    ensures
        linked_items(*final(set)) == without(linked_items(*old(set)), item).push(item),
        added == !linked_items(*old(set)).contains(item),
{
    set.insert(item)
}

/// The items of a set, in their order.
///
/// Calls `LinkedHashSet::iter`, which visits the items in the order in which
/// they were put in, and copies each item into the list.
#[verifier::external_body]
fn linked_list(set: &LinkedHashSet<u32, RandomState>) -> (items: Vec<u32>)
    ensures
        items@ == linked_items(*set),
{
    set.iter().copied().collect()
}

/// The list with each item once, where it stood last.
pub fn distinct(items: &Vec<u32>) -> (kept: Vec<u32>)
    ensures
        kept@ == keep_last(items@),
{
    let mut set = linked_new();
    let mut i: usize = 0;
    assert(items@.take(0) =~= Seq::empty());
    while i < items.len()
        invariant
            i <= items.len(),
            linked_items(set) == keep_last(items@.take(i as int)),
        decreases items.len() - i,
    {
        proof {
            assert(items@.take(i + 1).drop_last() =~= items@.take(i as int));
        }
        linked_insert(&mut set, items[i]);
        i += 1;
    }
    assert(items@.take(items.len() as int) =~= items@);
    linked_list(&set)
}

/// What is left without an item holds no such item, holds only what the list
/// held, and every other item of the list; and it holds nothing twice if the
/// list did not.
pub proof fn lemma_without<T>(items: Seq<T>, item: T)
    ensures
        !without(items, item).contains(item),
        forall|x: T| without(items, item).contains(x) <==> items.contains(x) && x != item,
        items.no_duplicates() ==> without(items, item).no_duplicates(),
        without(items, item).len() <= items.len(),
    decreases items.len(),
{
    if items.len() > 0 {
        let rest = items.drop_last();
        lemma_without(rest, item);
        let kept = without(items, item);
        assert forall|x: T| kept.contains(x) <==> items.contains(x) && x != item by {
            if kept.contains(x) {
                let i = choose|i: int| 0 <= i < kept.len() && kept[i] == x;
                if items.last() != item && i == kept.len() - 1 {
                    assert(items[items.len() - 1] == x);
                } else {
                    assert(without(rest, item)[i] == x);
                    assert(without(rest, item).contains(x));
                    assert(rest.contains(x));
                    let j = choose|j: int| 0 <= j < rest.len() && rest[j] == x;
                    assert(items[j] == x);
                }
            }
            if items.contains(x) && x != item {
                let j = choose|j: int| 0 <= j < items.len() && items[j] == x;
                if j < rest.len() {
                    assert(rest[j] == x);
                    assert(rest.contains(x));
                    assert(without(rest, item).contains(x));
                    let i = choose|i: int| 0 <= i < without(rest, item).len() && without(rest, item)[i] == x;
                    assert(kept[i] == x);
                } else {
                    assert(kept[kept.len() - 1] == x);
                }
            }
        }
        if items.no_duplicates() {
            assert(rest.no_duplicates());
            if items.last() != item {
                assert(!without(rest, item).contains(items.last())) by {
                    if rest.contains(items.last()) {
                        let j = choose|j: int| 0 <= j < rest.len() && rest[j] == items.last();
                        assert(items[j] == items[items.len() - 1]);
                    }
                }
                assert forall|i: int, j: int| 0 <= i < kept.len() && 0 <= j < kept.len() && i != j implies kept[i]
                    != kept[j] by {
                    if i < kept.len() - 1 && j < kept.len() - 1 {
                        assert(without(rest, item)[i] != without(rest, item)[j]);
                    } else if i < kept.len() - 1 {
                        assert(without(rest, item).contains(kept[i]));
                    } else {
                        assert(without(rest, item).contains(kept[j]));
                    }
                }
            }
        }
    }
}

/// The list with each item once holds what the list holds, and nothing twice.
pub proof fn lemma_keep_last<T>(items: Seq<T>)
    ensures
        keep_last(items).no_duplicates(),
        forall|x: T| keep_last(items).contains(x) <==> items.contains(x),
        keep_last(items).len() <= items.len(),
        items.len() > 0 ==> keep_last(items).len() > 0,
    decreases items.len(),
{
    if items.len() > 0 {
        let rest = items.drop_last();
        let last = items.last();
        lemma_keep_last(rest);
        lemma_without(keep_last(rest), last);
        let kept = keep_last(items);
        let head = without(keep_last(rest), last);
        assert(kept == head.push(last));
        assert forall|i: int, j: int| 0 <= i < kept.len() && 0 <= j < kept.len() && i != j implies kept[i]
            != kept[j] by {
            if i < head.len() && j < head.len() {
                assert(head[i] != head[j]);
            } else if i < head.len() {
                assert(head.contains(kept[i]));
            } else {
                assert(head.contains(kept[j]));
            }
        }
        assert forall|x: T| kept.contains(x) <==> items.contains(x) by {
            if kept.contains(x) {
                let i = choose|i: int| 0 <= i < kept.len() && kept[i] == x;
                if i < head.len() {
                    assert(head[i] == x);
                    assert(head.contains(x));
                    assert(keep_last(rest).contains(x));
                    assert(rest.contains(x));
                    let j = choose|j: int| 0 <= j < rest.len() && rest[j] == x;
                    assert(items[j] == x);
                } else {
                    assert(items[items.len() - 1] == x);
                }
            }
            if items.contains(x) {
                let j = choose|j: int| 0 <= j < items.len() && items[j] == x;
                if x == last {
                    assert(kept[kept.len() - 1] == x);
                } else {
                    assert(rest[j] == x);
                    assert(rest.contains(x));
                    assert(keep_last(rest).contains(x));
                    assert(head.contains(x));
                    let i = choose|i: int| 0 <= i < head.len() && head[i] == x;
                    assert(kept[i] == x);
                }
            }
        }
    }
}

} // verus!
