//! Stable sorting by a strict order, with what it guarantees.

use vstd::prelude::*;

verus! {

/// `sorted` with `item` placed in front of the first entry that does not come
/// strictly before it.
pub open spec fn insorted<T>(sorted: Seq<T>, item: T, before: spec_fn(T, T) -> bool) -> Seq<T>
    decreases sorted.len(),
{
    if sorted.len() == 0 {
        seq![item]
    } else if before(sorted[0], item) {
        seq![sorted[0]] + insorted(sorted.drop_first(), item, before)
    } else {
        seq![item] + sorted
    }
}

/// The entries of `items` in the order `before` gives them. Entries that
/// neither come before the other keep the order they had in `items`.
pub open spec fn sorted_by<T>(items: Seq<T>, before: spec_fn(T, T) -> bool) -> Seq<T>
    decreases items.len(),
{
    if items.len() == 0 {
        Seq::empty()
    } else {
        insorted(sorted_by(items.drop_first(), before), items[0], before)
    }
}

/// `before` never puts an entry before itself, chains, and an entry that is not
/// after a second one and the second not after a third is not after the third.
pub open spec fn strict_weak_order<T>(before: spec_fn(T, T) -> bool) -> bool {
    &&& forall|a: T| !#[trigger] before(a, a)
    &&& forall|a: T, b: T, c: T| #[trigger] before(a, b) && #[trigger] before(b, c) ==> before(a, c)
    &&& forall|a: T, b: T, c: T|
        !(#[trigger] before(a, b)) && !(#[trigger] before(b, c)) ==> !before(a, c)
}

/// No entry of `items` comes strictly before one that stands in front of it.
pub open spec fn in_order<T>(items: Seq<T>, before: spec_fn(T, T) -> bool) -> bool {
    forall|i: int, j: int| 0 <= i < j < items.len() ==> !before(#[trigger] items[j], #[trigger] items[i])
}

proof fn lemma_insorted_at<T>(sorted: Seq<T>, item: T, before: spec_fn(T, T) -> bool, at: int)
    requires
        0 <= at <= sorted.len(),
        forall|i: int| 0 <= i < at ==> before(#[trigger] sorted[i], item),
        at < sorted.len() ==> !before(sorted[at], item),
    ensures
        insorted(sorted, item, before) == sorted.insert(at, item),
    decreases sorted.len(),
{
    if sorted.len() > 0 && before(sorted[0], item) {
        let tail = sorted.drop_first();
        assert forall|i: int| 0 <= i < at - 1 implies before(#[trigger] tail[i], item) by {
            assert(tail[i] == sorted[i + 1]);
        }
        if at < sorted.len() {
            assert(tail[at - 1] == sorted[at]);
        }
        assert(at > 0);
        lemma_insorted_at(tail, item, before, at - 1);
        assert(insorted(sorted, item, before) =~= sorted.insert(at, item));
    } else {
        if at > 0 {
            assert(before(sorted[0], item));
        }
        assert(insorted(sorted, item, before) =~= sorted.insert(at, item));
    }
}

proof fn lemma_insorted<T>(sorted: Seq<T>, item: T, before: spec_fn(T, T) -> bool)
    ensures
        insorted(sorted, item, before).to_multiset() == sorted.to_multiset().insert(item),
        insorted(sorted, item, before).len() == sorted.len() + 1,
        strict_weak_order(before) && in_order(sorted, before) ==> in_order(
            insorted(sorted, item, before),
            before,
        ),
    decreases sorted.len(),
{
    broadcast use vstd::seq_lib::group_to_multiset_ensures;

    let out = insorted(sorted, item, before);
    if sorted.len() == 0 {
        assert(out =~= sorted.push(item));
    } else if before(sorted[0], item) {
        let tail = sorted.drop_first();
        lemma_insorted(tail, item, before);
        let rest = insorted(tail, item, before);
        assert(sorted =~= seq![sorted[0]] + tail);
        vstd::seq_lib::lemma_multiset_commutative(seq![sorted[0]], tail);
        vstd::seq_lib::lemma_multiset_commutative(seq![sorted[0]], rest);
        assert(seq![sorted[0]] =~= Seq::<T>::empty().push(sorted[0]));
        assert(out.to_multiset() =~= sorted.to_multiset().insert(item));
        if strict_weak_order(before) && in_order(sorted, before) {
            assert(in_order(tail, before)) by {
                assert forall|i: int, j: int| 0 <= i < j < tail.len() implies !before(
                    #[trigger] tail[j],
                    #[trigger] tail[i],
                ) by {
                    assert(tail[j] == sorted[j + 1] && tail[i] == sorted[i + 1]);
                }
            }
            assert forall|i: int, j: int| 0 <= i < j < out.len() implies !before(
                #[trigger] out[j],
                #[trigger] out[i],
            ) by {
                assert(out[j] == rest[j - 1]);
                if i == 0 {
                    assert(rest.to_multiset().count(rest[j - 1]) > 0);
                    if rest[j - 1] == item {
                        if before(item, sorted[0]) {
                            assert(before(item, item));
                        }
                    } else {
                        assert(tail.to_multiset().count(rest[j - 1]) > 0);
                        assert(tail.contains(rest[j - 1]));
                        let k = choose|k: int| 0 <= k < tail.len() && tail[k] == rest[j - 1];
                        assert(sorted[k + 1] == rest[j - 1]);
                    }
                } else {
                    assert(out[i] == rest[i - 1]);
                }
            }
        }
    } else {
        vstd::seq_lib::lemma_multiset_commutative(seq![item], sorted);
        assert(seq![item] =~= Seq::<T>::empty().push(item));
        assert(out.to_multiset() =~= sorted.to_multiset().insert(item));
        if strict_weak_order(before) && in_order(sorted, before) {
            assert forall|i: int, j: int| 0 <= i < j < out.len() implies !before(
                #[trigger] out[j],
                #[trigger] out[i],
            ) by {
                assert(out[j] == sorted[j - 1]);
                if i == 0 {
                    if j > 1 {
                        assert(!before(sorted[j - 1], sorted[0]));
                        assert(!before(sorted[0], item));
                    }
                } else {
                    assert(out[i] == sorted[i - 1]);
                }
            }
        }
    }
}

/// Sorting keeps every entry as often as it occurs, and leaves the entries in order.
pub proof fn law_sorted_by_orders_the_same_entries<T>(items: Seq<T>, before: spec_fn(T, T) -> bool)
    ensures
        sorted_by(items, before).to_multiset() == items.to_multiset(),
        sorted_by(items, before).len() == items.len(),
        strict_weak_order(before) ==> in_order(sorted_by(items, before), before),
    decreases items.len(),
{
    broadcast use vstd::seq_lib::group_to_multiset_ensures;

    if items.len() > 0 {
        let tail = items.drop_first();
        law_sorted_by_orders_the_same_entries(tail, before);
        lemma_insorted(sorted_by(tail, before), items[0], before);
        assert(items =~= seq![items[0]] + tail);
        vstd::seq_lib::lemma_multiset_commutative(seq![items[0]], tail);
        assert(seq![items[0]] =~= Seq::<T>::empty().push(items[0]));
        assert(sorted_by(items, before).to_multiset() =~= items.to_multiset());
    } else {
        assert(items =~= Seq::<T>::empty());
    }
}

proof fn lemma_insorted_map<T, U>(
    sorted: Seq<T>,
    item: T,
    before: spec_fn(T, T) -> bool,
    to: spec_fn(T) -> U,
    before_to: spec_fn(U, U) -> bool,
)
    requires
        forall|i: int|
            0 <= i < sorted.len() ==> before(#[trigger] sorted[i], item) == before_to(
                to(sorted[i]),
                to(item),
            ),
    ensures
        insorted(sorted, item, before).map_values(to) == insorted(
            sorted.map_values(to),
            to(item),
            before_to,
        ),
    decreases sorted.len(),
{
    let out = insorted(sorted, item, before).map_values(to);
    if sorted.len() == 0 {
        assert(out =~= insorted(sorted.map_values(to), to(item), before_to));
    } else if before(sorted[0], item) {
        let tail = sorted.drop_first();
        assert forall|i: int| 0 <= i < tail.len() implies before(#[trigger] tail[i], item)
            == before_to(to(tail[i]), to(item)) by {
            assert(tail[i] == sorted[i + 1]);
        }
        lemma_insorted_map(tail, item, before, to, before_to);
        assert(sorted.map_values(to).drop_first() =~= tail.map_values(to));
        assert(out =~= seq![to(sorted[0])] + insorted(tail, item, before).map_values(to));
    } else {
        assert(out =~= insorted(sorted.map_values(to), to(item), before_to));
    }
}

/// Sorting what the entries map to is mapping the sorted entries, where the two
/// orders agree.
pub proof fn lemma_sorted_by_map<T, U>(
    items: Seq<T>,
    before: spec_fn(T, T) -> bool,
    to: spec_fn(T) -> U,
    before_to: spec_fn(U, U) -> bool,
)
    requires
        forall|i: int, j: int|
            0 <= i < items.len() && 0 <= j < items.len() ==> before(
                #[trigger] items[i],
                #[trigger] items[j],
            ) == before_to(to(items[i]), to(items[j])),
    ensures
        sorted_by(items, before).map_values(to) == sorted_by(items.map_values(to), before_to),
    decreases items.len(),
{
    broadcast use vstd::seq_lib::group_to_multiset_ensures;

    if items.len() > 0 {
        let tail = items.drop_first();
        assert forall|i: int, j: int| 0 <= i < tail.len() && 0 <= j < tail.len() implies before(
            #[trigger] tail[i],
            #[trigger] tail[j],
        ) == before_to(to(tail[i]), to(tail[j])) by {
            assert(tail[i] == items[i + 1] && tail[j] == items[j + 1]);
        }
        lemma_sorted_by_map(tail, before, to, before_to);
        let sorted = sorted_by(tail, before);
        law_sorted_by_orders_the_same_entries(tail, before);
        assert forall|i: int| 0 <= i < sorted.len() implies before(#[trigger] sorted[i], items[0])
            == before_to(to(sorted[i]), to(items[0])) by {
            assert(sorted.to_multiset().count(sorted[i]) > 0);
            assert(tail.contains(sorted[i]));
            let k = choose|k: int| 0 <= k < tail.len() && tail[k] == sorted[i];
            assert(sorted[i] == items[k + 1]);
        }
        lemma_insorted_map(sorted, items[0], before, to, before_to);
        assert(items.map_values(to).drop_first() =~= tail.map_values(to));
    } else {
        assert(sorted_by(items, before).map_values(to) =~= Seq::<U>::empty());
    }
}

/// Sorts `items`, keeping the order of entries that neither come before the other.
pub(crate) fn sort_stable<T, F: Fn(&T, &T) -> bool>(
    items: Vec<T>,
    less: F,
    Ghost(before): Ghost<spec_fn(T, T) -> bool>,
) -> (sorted: Vec<T>)
    requires
        forall|a: &T, b: &T| #[trigger] less.requires((a, b)),
        forall|a: &T, b: &T, r: bool| #[trigger] less.ensures((a, b), r) ==> r == before(*a, *b),
    ensures
        sorted@ == sorted_by(items@, before),
{
    let ghost all = items@;
    let mut rest = items;
    let mut sorted: Vec<T> = Vec::new();
    assert(all.skip(all.len() as int) =~= Seq::<T>::empty());
    while rest.len() > 0
        invariant
            rest@.len() <= all.len(),
            rest@ == all.take(rest@.len() as int),
            sorted@ == sorted_by(all.skip(rest@.len() as int), before),
            forall|a: &T, b: &T| #[trigger] less.requires((a, b)),
            forall|a: &T, b: &T, r: bool| #[trigger] less.ensures((a, b), r) ==> r == before(*a, *b),
        decreases rest@.len(),
    {
        let ghost n = rest@.len() as int;
        let last = rest.pop();
        if let Some(item) = last {
            assert(item == all[n - 1]);
            let mut at: usize = 0;
            while at < sorted.len() && less(&sorted[at], &item)
                invariant
                    at <= sorted@.len(),
                    forall|i: int| 0 <= i < at ==> before(#[trigger] sorted@[i], item),
                    forall|a: &T, b: &T| #[trigger] less.requires((a, b)),
                    forall|a: &T, b: &T, r: bool|
                        #[trigger] less.ensures((a, b), r) ==> r == before(*a, *b),
                decreases sorted@.len() - at,
            {
                at = at + 1;
            }
            proof {
                lemma_insorted_at(sorted@, item, before, at as int);
                assert(all.skip(n - 1).drop_first() =~= all.skip(n));
                assert(all.skip(n - 1)[0] == item);
            }
            sorted.insert(at, item);
            assert(rest@ =~= all.take(n - 1));
        }
    }
    assert(all.skip(0) =~= all);
    sorted
}

/// Sorting keeps the order of the entries that it does not tell apart: those that
/// are neither before `entry` nor behind it stand as they stood.
pub proof fn law_sorting_keeps_the_order_of_equals<T>(
    items: Seq<T>,
    before: spec_fn(T, T) -> bool,
    entry: T,
)
    requires
        strict_weak_order(before),
    ensures
        sorted_by(items, before).filter(|x: T| !before(x, entry) && !before(entry, x))
            == items.filter(|x: T| !before(x, entry) && !before(entry, x)),
    decreases items.len(),
{
    let same = |x: T| !before(x, entry) && !before(entry, x);
    reveal(Seq::filter);
    if items.len() > 0 {
        let rest = items.drop_first();
        law_sorting_keeps_the_order_of_equals(rest, before, entry);
        lemma_insorted_filter(sorted_by(rest, before), items[0], before, entry);
        assert(items =~= seq![items[0]] + rest);
        Seq::filter_distributes_over_add(seq![items[0]], rest, same);
        lemma_filter_one(items[0], same);
    }
}

proof fn lemma_filter_one<T>(item: T, keep: spec_fn(T) -> bool)
    ensures
        seq![item].filter(keep) == if keep(item) {
            seq![item]
        } else {
            Seq::empty()
        },
{
    reveal(Seq::filter);
    let none = Seq::<T>::empty();
    assert(seq![item].drop_last() =~= none);
    assert(none.filter(keep) =~= none);
    assert(seq![item].filter(keep) =~= if keep(item) {
        seq![item]
    } else {
        Seq::empty()
    });
}

proof fn lemma_insorted_filter<T>(
    sorted: Seq<T>,
    item: T,
    before: spec_fn(T, T) -> bool,
    entry: T,
)
    requires
        strict_weak_order(before),
    ensures
        ({
            let same = |x: T| !before(x, entry) && !before(entry, x);
            insorted(sorted, item, before).filter(same) == seq![item].filter(same)
                + sorted.filter(same)
        }),
    decreases sorted.len(),
{
    let same = |x: T| !before(x, entry) && !before(entry, x);
    lemma_filter_one(item, same);
    if sorted.len() == 0 {
        reveal(Seq::filter);
        assert(sorted.filter(same) =~= Seq::<T>::empty());
        assert(seq![item].filter(same) + sorted.filter(same) =~= seq![item].filter(same));
    } else {
        let first = sorted[0];
        let rest = sorted.drop_first();
        assert(sorted =~= seq![first] + rest);
        Seq::filter_distributes_over_add(seq![first], rest, same);
        lemma_filter_one(first, same);
        if before(first, item) {
            lemma_insorted_filter(rest, item, before, entry);
            Seq::filter_distributes_over_add(
                seq![first],
                insorted(rest, item, before),
                same,
            );
            // The first comes before the item, so at most one of them is like the entry.
            if same(first) && same(item) {
                assert(!before(first, entry) && !before(entry, item));
                assert(!before(first, item));
            }
            assert(insorted(sorted, item, before).filter(same) =~= seq![item].filter(same)
                + sorted.filter(same));
        } else {
            Seq::filter_distributes_over_add(seq![item], sorted, same);
        }
    }
}

} // verus!
