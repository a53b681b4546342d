//! Counting and filtering along a listing, one entry at a time.

use vstd::prelude::*;

verus! {

/// How many entries of `items` satisfy `keep`.
pub open spec fn count_in<A>(items: Seq<A>, keep: spec_fn(A) -> bool) -> nat
    decreases items.len(),
{
    if items.len() == 0 {
        0
    } else {
        count_in(items.drop_last(), keep) + if keep(items.last()) {
            1nat
        } else {
            0nat
        }
    }
}

/// Appending one entry raises the count by one exactly when the entry is kept.
pub proof fn lemma_count_in_push<A>(items: Seq<A>, item: A, keep: spec_fn(A) -> bool)
    ensures
        count_in(items.push(item), keep) == count_in(items, keep) + if keep(item) {
            1nat
        } else {
            0nat
        },
{
    assert(items.push(item).drop_last() =~= items);
}

/// No more entries are kept than there are.
pub proof fn lemma_count_in_bound<A>(items: Seq<A>, keep: spec_fn(A) -> bool)
    ensures
        count_in(items, keep) <= items.len(),
    decreases items.len(),
{
    if items.len() > 0 {
        lemma_count_in_bound(items.drop_last(), keep);
    }
}

/// Filtering one entry more of a listing keeps what was kept, and the new
/// entry where it passes.
pub proof fn lemma_filter_take<A>(items: Seq<A>, upto: int, keep: spec_fn(A) -> bool)
    requires
        0 <= upto < items.len(),
    ensures
        items.take(0).filter(keep) == Seq::<A>::empty(),
        items.take(upto + 1).filter(keep) == if keep(items[upto]) {
            items.take(upto).filter(keep).push(items[upto])
        } else {
            items.take(upto).filter(keep)
        },
        items.take(items.len() as int) == items,
{
    reveal(Seq::filter);
    assert(items.take(0) =~= Seq::<A>::empty());
    assert(items.take(upto + 1).drop_last() =~= items.take(upto));
    assert(items.take(upto + 1).last() == items[upto]);
    assert(items.take(items.len() as int) =~= items);
}

/// Nothing is kept of an empty listing.
pub proof fn lemma_filter_empty<A>(keep: spec_fn(A) -> bool)
    ensures
        Seq::<A>::empty().filter(keep) == Seq::<A>::empty(),
{
    reveal(Seq::filter);
}

/// Every entry is kept exactly when the count is the length.
pub proof fn lemma_count_in_all<A>(items: Seq<A>, keep: spec_fn(A) -> bool)
    ensures
        count_in(items, keep) == items.len() <==> forall|i: int|
            0 <= i < items.len() ==> keep(#[trigger] items[i]),
        count_in(items, keep) == 0 <==> forall|i: int|
            0 <= i < items.len() ==> !keep(#[trigger] items[i]),
    decreases items.len(),
{
    if items.len() > 0 {
        let rest = items.drop_last();
        lemma_count_in_all(rest, keep);
        lemma_count_in_bound(rest, keep);
        if forall|i: int| 0 <= i < items.len() ==> keep(#[trigger] items[i]) {
            assert forall|i: int| 0 <= i < rest.len() implies keep(#[trigger] rest[i]) by {
                assert(rest[i] == items[i]);
            }
        }
        if forall|i: int| 0 <= i < items.len() ==> !keep(#[trigger] items[i]) {
            assert forall|i: int| 0 <= i < rest.len() implies !keep(#[trigger] rest[i]) by {
                assert(rest[i] == items[i]);
            }
        }
        if count_in(items, keep) == items.len() {
            assert forall|i: int| 0 <= i < items.len() implies keep(#[trigger] items[i]) by {
                if i < rest.len() {
                    assert(rest[i] == items[i]);
                }
            }
        }
        if count_in(items, keep) == 0 {
            assert forall|i: int| 0 <= i < items.len() implies !keep(#[trigger] items[i]) by {
                if i < rest.len() {
                    assert(rest[i] == items[i]);
                }
            }
        }
    }
}

/// Replacing one entry changes the count by what the old and the new entry
/// contribute.
pub proof fn lemma_count_in_update<A>(items: Seq<A>, at: int, item: A, keep: spec_fn(A) -> bool)
    requires
        0 <= at < items.len(),
    ensures
        count_in(items.update(at, item), keep) + (if keep(items[at]) {
            1nat
        } else {
            0nat
        }) == count_in(items, keep) + (if keep(item) {
            1nat
        } else {
            0nat
        }),
    decreases items.len(),
{
    let changed = items.update(at, item);
    if at == items.len() - 1 {
        assert(changed.drop_last() =~= items.drop_last());
    } else {
        assert(changed.drop_last() =~= items.drop_last().update(at, item));
        lemma_count_in_update(items.drop_last(), at, item, keep);
    }
}

/// The entries of a listing form the set of the shorter listing plus the last.
pub proof fn lemma_to_set_last<A>(items: Seq<A>)
    requires
        items.len() > 0,
    ensures
        items.to_set() == items.drop_last().to_set().insert(items.last()),
{
    let rest = items.drop_last();
    let last = items.last();
    assert forall|a: A| items.to_set().contains(a) <==> rest.to_set().insert(last).contains(
        a,
    ) by {
        if items.contains(a) {
            let i = choose|i: int| 0 <= i < items.len() && items[i] == a;
            if i < rest.len() {
                assert(rest[i] == a);
            }
        }
        if rest.contains(a) {
            let i = choose|i: int| 0 <= i < rest.len() && rest[i] == a;
            assert(items[i] == a);
        }
        if a == last {
            assert(items[items.len() - 1] == a);
        }
    }
    assert(items.to_set() =~= rest.to_set().insert(last));
}

/// Over a listing without repeats, counting the kept entries gives the size
/// of the set of kept values.
pub proof fn lemma_count_is_cardinality<A>(items: Seq<A>, keep: spec_fn(A) -> bool)
    requires
        items.no_duplicates(),
    ensures
        items.to_set().finite(),
        items.to_set().filter(keep).finite(),
        items.to_set().len() == items.len(),
        items.to_set().filter(keep).len() == count_in(items, keep),
    decreases items.len(),
{
    if items.len() == 0 {
        assert(items.to_set() =~= Set::<A>::empty());
        assert(items.to_set().filter(keep) =~= Set::<A>::empty());
    } else {
        let rest = items.drop_last();
        let last = items.last();
        lemma_count_is_cardinality(rest, keep);
        lemma_to_set_last(items);
        assert(!rest.to_set().contains(last)) by {
            if rest.contains(last) {
                let i = choose|i: int| 0 <= i < rest.len() && rest[i] == last;
                assert(items[i] == items[items.len() - 1]);
            }
        }
        if keep(last) {
            assert(items.to_set().filter(keep) =~= rest.to_set().filter(keep).insert(last));
        } else {
            assert(items.to_set().filter(keep) =~= rest.to_set().filter(keep));
        }
    }
}

} // verus!
