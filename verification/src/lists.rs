//! Lists without repetition.

use vstd::prelude::*;

verus! {

/// Whether some item of `items` is wanted.
pub open spec fn holds_where<T>(items: Seq<T>, wanted: spec_fn(T) -> bool) -> bool {
    exists|i: int| 0 <= i < items.len() && wanted(#[trigger] items[i])
}

/// Whether `at` is the position of the first wanted item of `items`.
pub open spec fn is_first_where<T>(items: Seq<T>, wanted: spec_fn(T) -> bool, at: int) -> bool {
    &&& 0 <= at < items.len()
    &&& wanted(items[at])
    &&& forall|j: int| 0 <= j < at ==> !wanted(#[trigger] items[j])
}

/// The position of the first wanted item of `items`, where there is one.
pub open spec fn first_where<T>(items: Seq<T>, wanted: spec_fn(T) -> bool) -> int {
    choose|at: int| is_first_where(items, wanted, at)
}

/// Where no item before `start` is wanted and some item is, there is a first one.
proof fn lemma_first_where_from<T>(items: Seq<T>, wanted: spec_fn(T) -> bool, start: int)
    requires
        0 <= start,
        forall|j: int| 0 <= j < start ==> !wanted(#[trigger] items[j]),
        exists|i: int| start <= i < items.len() && wanted(#[trigger] items[i]),
    ensures
        exists|at: int| is_first_where(items, wanted, at),
    decreases items.len() - start,
{
    if wanted(items[start]) {
        assert(is_first_where(items, wanted, start));
    } else {
        let i = choose|i: int| start <= i < items.len() && wanted(#[trigger] items[i]);
        assert(start + 1 <= i);
        lemma_first_where_from(items, wanted, start + 1);
    }
}

/// Where some item is wanted, [`first_where`] is the position of the first.
pub proof fn lemma_first_where<T>(items: Seq<T>, wanted: spec_fn(T) -> bool)
    requires
        holds_where(items, wanted),
    ensures
        is_first_where(items, wanted, first_where(items, wanted)),
{
    lemma_first_where_from(items, wanted, 0);
}

/// The first wanted item has one position only.
pub proof fn lemma_first_where_is<T>(items: Seq<T>, wanted: spec_fn(T) -> bool, at: int)
    requires
        is_first_where(items, wanted, at),
    ensures
        holds_where(items, wanted),
        first_where(items, wanted) == at,
{
    let chosen = first_where(items, wanted);
    assert(is_first_where(items, wanted, chosen));
    if chosen < at {
        assert(!wanted(items[chosen]));
    }
    if at < chosen {
        assert(!wanted(items[at]));
    }
}

/// The items of `items`, each once, in the order of their first occurrence.
pub open spec fn distinct<T>(items: Seq<T>) -> Seq<T>
    decreases items.len(),
{
    if items.len() == 0 {
        items
    } else {
        let before = distinct(items.drop_last());
        if before.contains(items.last()) {
            before
        } else {
            before.push(items.last())
        }
    }
}

/// [`distinct`] holds what its argument holds, and nothing twice.
pub proof fn lemma_distinct<T>(items: Seq<T>)
    ensures
        distinct(items).no_duplicates(),
        distinct(items).len() <= items.len(),
        forall|x: T| #[trigger] distinct(items).contains(x) ==> items.contains(x),
        forall|x: T| #[trigger] items.contains(x) ==> distinct(items).contains(x),
    decreases items.len(),
{
    if items.len() > 0 {
        let shorter = items.drop_last();
        let before = distinct(shorter);
        lemma_distinct(shorter);
        let last = items.last();
        assert forall|x: T| #[trigger] distinct(items).contains(x) implies items.contains(x) by {
            if before.contains(x) {
                assert(shorter.contains(x));
                let k = choose|k: int| 0 <= k < shorter.len() && shorter[k] == x;
                assert(items[k] == x);
            } else {
                let k = choose|k: int| 0 <= k < distinct(items).len() && distinct(items)[k] == x;
                assert(x == last);
                assert(items[items.len() - 1] == x);
            }
        }
        assert forall|x: T| #[trigger] items.contains(x) implies distinct(items).contains(x) by {
            let k = choose|k: int| 0 <= k < items.len() && items[k] == x;
            if k < items.len() - 1 {
                assert(shorter[k] == x);
                assert(shorter.contains(x));
                assert(before.contains(x));
                let m = choose|m: int| 0 <= m < before.len() && before[m] == x;
                assert(distinct(items)[m] == x);
            } else {
                if before.contains(x) {
                    let m = choose|m: int| 0 <= m < before.len() && before[m] == x;
                    assert(distinct(items)[m] == x);
                } else {
                    assert(distinct(items)[before.len() as int] == x);
                }
            }
        }
    }
}

/// A list and its [`distinct`] items make the same set, whose size is the
/// number of distinct items.
pub proof fn lemma_distinct_set<T>(items: Seq<T>)
    ensures
        distinct(items).to_set() == items.to_set(),
        items.to_set().finite(),
        items.to_set().len() == distinct(items).len(),
{
    lemma_distinct(items);
    assert(distinct(items).to_set() =~= items.to_set());
    distinct(items).unique_seq_to_set();
    vstd::seq_lib::seq_to_set_is_finite(items);
}

/// Filtering a list without duplicates leaves no duplicates.
pub proof fn lemma_filter_keeps_distinct<T>(items: Seq<T>, keep: spec_fn(T) -> bool)
    requires
        items.no_duplicates(),
    ensures
        items.filter(keep).no_duplicates(),
    decreases items.len(),
{
    reveal(Seq::filter);
    if items.len() > 0 {
        let before = items.drop_last();
        lemma_filter_keeps_distinct(before, keep);
        if keep(items.last()) {
            let out = items.filter(keep);
            assert forall|i: int, j: int|
                0 <= i < out.len() && 0 <= j < out.len() && i != j implies out[i] != out[j] by {
                if i == out.len() - 1 || j == out.len() - 1 {
                    let other = if i == out.len() - 1 {
                        j
                    } else {
                        i
                    };
                    assert(before.filter(keep).contains(out[other]));
                    before.lemma_filter_contains_rev(keep, out[other]);
                    let k = choose|k: int| 0 <= k < before.len() && before[k] == out[other];
                    assert(items[k] == out[other]);
                }
            }
        }
    }
}

} // verus!
