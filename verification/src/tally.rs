//! Totals over sequences: sums that stop at the largest number, maxima, and what
//! is distinct in a sequence.

use crate::order;
use vstd::prelude::*;

verus! {

pub open spec fn total(numbers: Seq<u64>) -> nat
    decreases numbers.len(),
{
    if numbers.len() == 0 {
        0
    } else {
        total(numbers.drop_last()) + numbers.last() as nat
    }
}

/// `n`, or the largest `u64` where `n` is larger.
pub open spec fn capped(n: nat) -> u64 {
    if n <= u64::MAX {
        n as u64
    } else {
        u64::MAX
    }
}

/// The largest of the numbers; zero where there are none.
pub open spec fn largest(numbers: Seq<u64>) -> u64
    decreases numbers.len(),
{
    if numbers.len() == 0 {
        0
    } else {
        let head = largest(numbers.drop_last());
        if head < numbers.last() {
            numbers.last()
        } else {
            head
        }
    }
}

/// The entries of `items` that differ, in the order in which they first occur.
pub open spec fn distinct<T>(items: Seq<T>) -> Seq<T>
    decreases items.len(),
{
    if items.len() == 0 {
        Seq::empty()
    } else {
        let head = distinct(items.drop_last());
        if head.contains(items.last()) {
            head
        } else {
            head.push(items.last())
        }
    }
}

/// What `pick` finds in the entries of `items`, in their order.
pub open spec fn picked<T, U>(items: Seq<T>, pick: spec_fn(T) -> Option<U>) -> Seq<U>
    decreases items.len(),
{
    if items.len() == 0 {
        Seq::empty()
    } else {
        let head = picked(items.drop_last(), pick);
        match pick(items.last()) {
            Some(found) => head.push(found),
            None => head,
        }
    }
}

/// The first entry that `wanted` picks.
pub open spec fn first_where<T>(items: Seq<T>, wanted: spec_fn(T) -> bool) -> Option<T>
    decreases items.len(),
{
    if items.len() == 0 {
        None
    } else if wanted(items[0]) {
        Some(items[0])
    } else {
        first_where(items.drop_first(), wanted)
    }
}

/// The last entry that `wanted` picks.
pub open spec fn last_where<T>(items: Seq<T>, wanted: spec_fn(T) -> bool) -> Option<T>
    decreases items.len(),
{
    if items.len() == 0 {
        None
    } else if wanted(items.last()) {
        Some(items.last())
    } else {
        last_where(items.drop_last(), wanted)
    }
}

/// The last of the entries that no other is above.
pub open spec fn last_greatest<T>(items: Seq<T>, above: spec_fn(T, T) -> bool) -> Option<T>
    decreases items.len(),
{
    if items.len() == 0 {
        None
    } else {
        match last_greatest(items.drop_last(), above) {
            Some(best) => if above(best, items.last()) {
                Some(best)
            } else {
                Some(items.last())
            },
            None => Some(items.last()),
        }
    }
}

/// The sum of `count` over the entries of `items`.
pub open spec fn sum_of<T>(items: Seq<T>, count: spec_fn(T) -> nat) -> nat
    decreases items.len(),
{
    if items.len() == 0 {
        0
    } else {
        count(items[0]) + sum_of(items.drop_first(), count)
    }
}

pub proof fn lemma_total_push(numbers: Seq<u64>, n: u64)
    ensures
        total(numbers.push(n)) == total(numbers) + n,
        largest(numbers.push(n)) == if largest(numbers) < n {
            n
        } else {
            largest(numbers)
        },
{
    assert(numbers.push(n).drop_last() =~= numbers);
}

pub proof fn lemma_distinct_push<T>(items: Seq<T>, item: T)
    ensures
        distinct(items.push(item)) == if distinct(items).contains(item) {
            distinct(items)
        } else {
            distinct(items).push(item)
        },
{
    assert(items.push(item).drop_last() =~= items);
}

pub proof fn lemma_filter_push<T>(items: Seq<T>, item: T, keep: spec_fn(T) -> bool)
    ensures
        items.push(item).filter(keep) == if keep(item) {
            items.filter(keep).push(item)
        } else {
            items.filter(keep)
        },
{
    reveal(Seq::filter);
    assert(items.push(item).drop_last() =~= items);
}

/// The distinct entries are those that occur, each once.
pub proof fn law_distinct_names_each_entry_once<T>(items: Seq<T>)
    ensures
        forall|x: T| #[trigger] distinct(items).contains(x) <==> items.contains(x),
        distinct(items).no_duplicates(),
        distinct(items).len() <= items.len(),
    decreases items.len(),
{
    if items.len() > 0 {
        let rest = items.drop_last();
        law_distinct_names_each_entry_once(rest);
        let out = distinct(items);
        assert forall|x: T| #[trigger] out.contains(x) <==> items.contains(x) by {
            assert(items =~= rest.push(items.last()));
            if out.contains(x) {
                let k = choose|k: int| 0 <= k < out.len() && out[k] == x;
                if k < distinct(rest).len() {
                    assert(distinct(rest)[k] == x);
                    assert(distinct(rest).contains(x));
                    assert(rest.contains(x));
                    let m = choose|m: int| 0 <= m < rest.len() && rest[m] == x;
                    assert(items[m] == x);
                } else {
                    assert(x == items.last());
                    assert(items[items.len() - 1] == x);
                }
            }
            if items.contains(x) {
                let m = choose|m: int| 0 <= m < items.len() && items[m] == x;
                if m < rest.len() {
                    assert(rest[m] == x);
                    assert(rest.contains(x));
                    assert(distinct(rest).contains(x));
                    let k = choose|k: int| 0 <= k < distinct(rest).len() && distinct(rest)[k] == x;
                    assert(out[k] == x);
                } else if !distinct(rest).contains(x) {
                    assert(out[out.len() - 1] == x);
                } else {
                    assert(out == distinct(rest));
                }
            }
        }
    }
}

proof fn lemma_sum_of_push<T>(items: Seq<T>, item: T, count: spec_fn(T) -> nat)
    ensures
        sum_of(items.push(item), count) == sum_of(items, count) + count(item),
    decreases items.len(),
{
    if items.len() > 0 {
        lemma_sum_of_push(items.drop_first(), item, count);
        assert(items.push(item).drop_first() =~= items.drop_first().push(item));
    } else {
        assert(items.push(item).drop_first() =~= Seq::<T>::empty());
        assert(sum_of(Seq::<T>::empty(), count) == 0);
    }
}

proof fn lemma_sum_of_changed<T>(
    items: Seq<T>,
    count: spec_fn(T) -> nat,
    other: spec_fn(T) -> nat,
    special: T,
    more: nat,
)
    requires
        items.no_duplicates(),
        forall|i: int|
            0 <= i < items.len() ==> #[trigger] other(items[i]) == if items[i] == special {
                count(items[i]) + more
            } else {
                count(items[i])
            },
    ensures
        sum_of(items, other) == sum_of(items, count) + if items.contains(special) {
            more
        } else {
            0
        },
    decreases items.len(),
{
    if items.len() > 0 {
        let rest = items.drop_first();
        assert forall|i: int| 0 <= i < rest.len() implies #[trigger] other(rest[i]) == if rest[i]
            == special {
            count(rest[i]) + more
        } else {
            count(rest[i])
        } by {
            assert(rest[i] == items[i + 1]);
        }
        lemma_sum_of_changed(rest, count, other, special, more);
        assert(other(items[0]) == if items[0] == special {
            count(items[0]) + more
        } else {
            count(items[0])
        });
        if items[0] == special {
            assert(items.contains(special));
            if rest.contains(special) {
                let k = choose|k: int| 0 <= k < rest.len() && rest[k] == special;
                assert(items[k + 1] == special);
            }
        } else if items.contains(special) {
            let k = choose|k: int| 0 <= k < items.len() && items[k] == special;
            assert(rest[k - 1] == special);
        } else if rest.contains(special) {
            let k = choose|k: int| 0 <= k < rest.len() && rest[k] == special;
            assert(items[k + 1] == special);
        }
    }
}

/// Picks the items with the label `l`.
pub open spec fn labelled<T, L>(label: spec_fn(T) -> L, l: L) -> spec_fn(T) -> bool {
    |t: T| label(t) == l
}

/// Splitting items by a label and adding up what each group counts gives what
/// all of them count, where a group counts what its items do.
pub proof fn law_groups_add_up<T, L>(
    items: Seq<T>,
    label: spec_fn(T) -> L,
    weight: spec_fn(T) -> nat,
)
    ensures
        sum_of(
            distinct(items.map_values(label)),
            |l: L| sum_of(items.filter(labelled(label, l)), weight),
        ) == sum_of(items, weight),
    decreases items.len(),
{
    let labels = items.map_values(label);
    let grouped = |l: L| sum_of(items.filter(labelled(label, l)), weight);
    if items.len() == 0 {
        assert(labels =~= Seq::<L>::empty());
        assert(sum_of(distinct(labels), grouped) == 0);
        assert(items =~= Seq::<T>::empty());
    } else {
        let rest = items.drop_last();
        let last = items.last();
        let rest_labels = rest.map_values(label);
        let rest_grouped = |l: L| sum_of(rest.filter(labelled(label, l)), weight);
        law_groups_add_up(rest, label, weight);
        assert(items =~= rest.push(last));
        assert(labels =~= rest_labels.push(label(last)));
        lemma_distinct_push(rest_labels, label(last));
        lemma_sum_of_push(rest, last, weight);
        assert forall|l: L| #[trigger] grouped(l) == if l == label(last) {
            rest_grouped(l) + weight(last)
        } else {
            rest_grouped(l)
        } by {
            let keep = labelled(label, l);
            lemma_filter_push(rest, last, keep);
            if l == label(last) {
                lemma_sum_of_push(rest.filter(keep), last, weight);
            }
        }
        let names = distinct(rest_labels);
        law_distinct_names_each_entry_once(rest_labels);
        lemma_sum_of_changed(names, rest_grouped, grouped, label(last), weight(last));
        if !names.contains(label(last)) {
            lemma_sum_of_push(names, label(last), grouped);
            let keep = labelled(label, label(last));
            assert(rest.filter(keep) =~= Seq::<T>::empty()) by {
                lemma_filter_none(rest, keep, label, label(last));
            }
            assert(sum_of(Seq::<T>::empty(), weight) == 0);
            assert(rest_grouped(label(last)) == 0);
        }
    }
}

proof fn lemma_filter_none<T, L>(
    items: Seq<T>,
    keep: spec_fn(T) -> bool,
    label: spec_fn(T) -> L,
    l: L,
)
    requires
        keep == labelled(label, l),
        !items.map_values(label).contains(l),
    ensures
        items.filter(keep).len() == 0,
    decreases items.len(),
{
    reveal(Seq::filter);
    if items.len() > 0 {
        let rest = items.drop_last();
        assert(items.map_values(label)[items.len() - 1] == label(items.last()));
        assert(!rest.map_values(label).contains(l)) by {
            if rest.map_values(label).contains(l) {
                let k = choose|k: int|
                    0 <= k < rest.map_values(label).len() && rest.map_values(label)[k] == l;
                assert(items.map_values(label)[k] == l);
            }
        }
        lemma_filter_none(rest, keep, label, l);
    }
}

proof fn lemma_insorted_sum<T>(
    sorted: Seq<T>,
    item: T,
    before: spec_fn(T, T) -> bool,
    count: spec_fn(T) -> nat,
)
    ensures
        sum_of(order::insorted(sorted, item, before), count) == sum_of(sorted, count) + count(item),
    decreases sorted.len(),
{
    let out = order::insorted(sorted, item, before);
    if sorted.len() == 0 {
        assert(out.drop_first() =~= Seq::<T>::empty());
        assert(sum_of(Seq::<T>::empty(), count) == 0);
    } else if before(sorted[0], item) {
        lemma_insorted_sum(sorted.drop_first(), item, before, count);
        assert(out.drop_first() =~= order::insorted(sorted.drop_first(), item, before));
    } else {
        assert(out.drop_first() =~= sorted);
    }
}

/// A sum does not depend on the order.
pub proof fn lemma_sorted_sum<T>(
    items: Seq<T>,
    before: spec_fn(T, T) -> bool,
    count: spec_fn(T) -> nat,
)
    ensures
        sum_of(order::sorted_by(items, before), count) == sum_of(items, count),
    decreases items.len(),
{
    if items.len() > 0 {
        lemma_sorted_sum(items.drop_first(), before, count);
        lemma_insorted_sum(
            order::sorted_by(items.drop_first(), before),
            items[0],
            before,
            count,
        );
    }
}

/// Counting every item once counts the items.
pub proof fn lemma_sum_of_ones<T>(items: Seq<T>, count: spec_fn(T) -> nat)
    requires
        forall|t: T| #[trigger] count(t) == 1,
    ensures
        sum_of(items, count) == items.len(),
    decreases items.len(),
{
    if items.len() > 0 {
        lemma_sum_of_ones(items.drop_first(), count);
    }
}

/// What is read off the items has no more distinct values than they have.
pub proof fn lemma_distinct_of_map<T, U>(items: Seq<T>, to: spec_fn(T) -> U)
    ensures
        distinct(items.map_values(to)).len() <= distinct(items).len(),
    decreases items.len(),
{
    if items.len() > 0 {
        let rest = items.drop_last();
        lemma_distinct_of_map(rest, to);
        assert(items.map_values(to).drop_last() =~= rest.map_values(to));
        law_distinct_names_each_entry_once(rest);
        law_distinct_names_each_entry_once(rest.map_values(to));
        if distinct(rest).contains(items.last()) {
            assert(rest.contains(items.last()));
            let k = choose|k: int| 0 <= k < rest.len() && rest[k] == items.last();
            assert(rest.map_values(to)[k] == to(items.last()));
            assert(rest.map_values(to).contains(to(items.last())));
            assert(distinct(rest.map_values(to)).contains(to(items.last())));
        }
    }
}

/// Two counts that agree on the items have the same sum.
pub proof fn lemma_sum_of_same<T>(items: Seq<T>, count: spec_fn(T) -> nat, other: spec_fn(T) -> nat)
    requires
        forall|i: int| 0 <= i < items.len() ==> count(#[trigger] items[i]) == other(items[i]),
    ensures
        sum_of(items, count) == sum_of(items, other),
    decreases items.len(),
{
    if items.len() > 0 {
        let rest = items.drop_first();
        assert forall|i: int| 0 <= i < rest.len() implies count(#[trigger] rest[i]) == other(
            rest[i],
        ) by {
            assert(rest[i] == items[i + 1]);
        }
        lemma_sum_of_same(rest, count, other);
        assert(count(items[0]) == other(items[0]));
    }
}

/// The total of numbers read off the items.
pub proof fn lemma_total_is_sum<T>(items: Seq<T>, number: spec_fn(T) -> u64)
    ensures
        total(items.map_values(number)) == sum_of(items, |t: T| number(t) as nat),
    decreases items.len(),
{
    let numbers = items.map_values(number);
    if items.len() > 0 {
        let rest = items.drop_last();
        lemma_total_is_sum(rest, number);
        assert(numbers.drop_last() =~= rest.map_values(number));
        assert(items =~= rest.push(items.last()));
        lemma_sum_of_push(rest, items.last(), |t: T| number(t) as nat);
    }
}

/// Capping the parts of a sum does not change the capped sum.
pub proof fn lemma_capped_parts<T>(items: Seq<T>, count: spec_fn(T) -> nat)
    ensures
        capped(sum_of(items, |t: T| capped(count(t)) as nat)) == capped(sum_of(items, count)),
    decreases items.len(),
{
    if items.len() > 0 {
        lemma_capped_parts(items.drop_first(), count);
    }
}

/// The largest number bounds the numbers and is one of them.
pub proof fn lemma_largest(numbers: Seq<u64>)
    ensures
        forall|i: int| 0 <= i < numbers.len() ==> #[trigger] numbers[i] <= largest(numbers),
        numbers.len() > 0 ==> numbers.contains(largest(numbers)),
    decreases numbers.len(),
{
    if numbers.len() > 0 {
        let rest = numbers.drop_last();
        lemma_largest(rest);
        assert forall|i: int| 0 <= i < numbers.len() implies #[trigger] numbers[i] <= largest(
            numbers,
        ) by {
            if i < rest.len() {
                assert(rest[i] == numbers[i]);
            }
        }
        if largest(rest) < numbers.last() || rest.len() == 0 {
            assert(numbers[numbers.len() - 1] == numbers.last());
        } else {
            let k = choose|k: int| 0 <= k < rest.len() && rest[k] == largest(rest);
            assert(numbers[k] == largest(numbers));
        }
    }
}

/// The largest number does not depend on the order.
pub proof fn lemma_sorted_largest<T>(
    items: Seq<T>,
    before: spec_fn(T, T) -> bool,
    number: spec_fn(T) -> u64,
)
    ensures
        largest(order::sorted_by(items, before).map_values(number)) == largest(
            items.map_values(number),
        ),
{
    broadcast use vstd::seq_lib::group_to_multiset_ensures;

    let sorted = order::sorted_by(items, before);
    order::law_sorted_by_orders_the_same_entries(items, before);
    let a = sorted.map_values(number);
    let b = items.map_values(number);
    lemma_largest(a);
    lemma_largest(b);
    if items.len() > 0 {
        let i = choose|i: int| 0 <= i < a.len() && a[i] == largest(a);
        assert(sorted.to_multiset().count(sorted[i]) > 0);
        assert(items.contains(sorted[i]));
        let j = choose|j: int| 0 <= j < items.len() && items[j] == sorted[i];
        assert(b[j] == a[i]);
        let k = choose|k: int| 0 <= k < b.len() && b[k] == largest(b);
        assert(items.to_multiset().count(items[k]) > 0);
        assert(sorted.contains(items[k]));
        let m = choose|m: int| 0 <= m < sorted.len() && sorted[m] == items[k];
        assert(a[m] == b[k]);
    }
}

/// A sum over what is read off the items.
pub proof fn lemma_sum_of_map<T, U>(items: Seq<T>, to: spec_fn(T) -> U, count: spec_fn(U) -> nat)
    ensures
        sum_of(items.map_values(to), count) == sum_of(items, |t: T| count(to(t))),
    decreases items.len(),
{
    if items.len() > 0 {
        lemma_sum_of_map(items.drop_first(), to, count);
        assert(items.map_values(to).drop_first() =~= items.drop_first().map_values(to));
    }
}

/// A total is at most the largest number for each of the numbers.
pub proof fn lemma_total_is_at_most(numbers: Seq<u64>)
    ensures
        total(numbers) <= numbers.len() * largest(numbers),
    decreases numbers.len(),
{
    if numbers.len() > 0 {
        let rest = numbers.drop_last();
        lemma_total_is_at_most(rest);
        let (n, m, top) = (rest.len() as int, largest(rest) as int, largest(numbers) as int);
        assert(n * m + top <= (n + 1) * top) by (nonlinear_arith)
            requires
                m <= top,
                n >= 0,
        ;
    } else {
        assert(0 * largest(numbers) as int == 0) by (nonlinear_arith);
    }
}

/// The first numbers add up to no more than all of them.
pub proof fn lemma_total_of_first(numbers: Seq<u64>, n: int)
    requires
        0 <= n <= numbers.len(),
    ensures
        total(numbers.take(n)) <= total(numbers),
    decreases numbers.len() - n,
{
    if n < numbers.len() {
        lemma_total_of_first(numbers, n + 1);
        assert(numbers.take(n + 1) =~= numbers.take(n).push(numbers[n]));
        lemma_total_push(numbers.take(n), numbers[n]);
    } else {
        assert(numbers.take(n) =~= numbers);
    }
}

/// The sum of the numbers.
pub fn sum(numbers: &[u64]) -> (out: u64)
    requires
        total(numbers@) <= u64::MAX,
    ensures
        out == total(numbers@),
{
    let mut out: u64 = 0;
    let mut i: usize = 0;
    while i < numbers.len()
        invariant
            i <= numbers@.len(),
            out == total(numbers@.take(i as int)),
            total(numbers@) <= u64::MAX,
        decreases numbers@.len() - i,
    {
        proof {
            let seen = numbers@.take(i as int);
            assert(numbers@.take(i + 1) =~= seen.push(numbers@[i as int]));
            lemma_total_push(seen, numbers@[i as int]);
            lemma_total_of_first(numbers@, i + 1);
        }
        out = out + numbers[i];
        i = i + 1;
    }
    assert(numbers@.take(numbers@.len() as int) =~= numbers@);
    out
}

/// The largest of the numbers; zero where there are none.
pub fn greatest(numbers: &[u64]) -> (out: u64)
    ensures
        out == largest(numbers@),
{
    let mut out: u64 = 0;
    let mut i: usize = 0;
    while i < numbers.len()
        invariant
            i <= numbers@.len(),
            out == largest(numbers@.take(i as int)),
        decreases numbers@.len() - i,
    {
        proof {
            let seen = numbers@.take(i as int);
            assert(numbers@.take(i + 1) =~= seen.push(numbers@[i as int]));
            lemma_total_push(seen, numbers@[i as int]);
        }
        if out < numbers[i] {
            out = numbers[i];
        }
        i = i + 1;
    }
    assert(numbers@.take(numbers@.len() as int) =~= numbers@);
    out
}

/// The total of no numbers is zero, and a further number adds itself.
pub proof fn law_total_adds_every_number(numbers: Seq<u64>, n: u64)
    ensures
        total(Seq::<u64>::empty()) == 0,
        total(numbers.push(n)) == total(numbers) + n,
{
    lemma_total_push(numbers, n);
}

/// A capped sum is the sum itself as long as 64 bits hold it, and all ones beyond.
pub proof fn law_capped_sums_stop_at_the_most(n: nat)
    ensures
        n <= 0xffff_ffff_ffff_ffff ==> capped(n) == n,
        n > 0xffff_ffff_ffff_ffff ==> capped(n) == 0xffff_ffff_ffff_ffffu64,
{
}

/// No number is above the largest, which is one of them where there are any and
/// zero where there are none.
pub proof fn law_largest_is_reached(numbers: Seq<u64>)
    ensures
        forall|i: int| 0 <= i < numbers.len() ==> #[trigger] numbers[i] <= largest(numbers),
        numbers.len() > 0 ==> numbers.contains(largest(numbers)),
        numbers.len() == 0 ==> largest(numbers) == 0,
{
    lemma_largest(numbers);
}

/// Of the entries that no other is above, the last is picked.
pub proof fn law_last_greatest_is_above_the_others<T>(
    items: Seq<T>,
    above: spec_fn(T, T) -> bool,
    at: int,
)
    requires
        0 <= at < items.len(),
        forall|i: int| 0 <= i < at ==> !above(#[trigger] items[i], items[at]),
        forall|i: int| at < i < items.len() ==> above(items[at], #[trigger] items[i]),
    ensures
        last_greatest(items, above) == Some(items[at]),
        last_greatest(Seq::<T>::empty(), above) is None,
    decreases items.len(),
{
    let rest = items.drop_last();
    if at < items.len() - 1 {
        assert forall|i: int| 0 <= i < at implies !above(#[trigger] rest[i], rest[at]) by {
            assert(rest[i] == items[i]);
        }
        assert forall|i: int| at < i < rest.len() implies above(rest[at], #[trigger] rest[i]) by {
            assert(rest[i] == items[i]);
        }
        law_last_greatest_is_above_the_others(rest, above, at);
        assert(above(items[at], items[items.len() - 1]));
    } else if rest.len() > 0 {
        lemma_last_greatest_occurs(rest, above);
        let i = choose|i: int| 0 <= i < rest.len() && Some(rest[i]) == last_greatest(rest, above);
        assert(rest[i] == items[i]);
    }
}

proof fn lemma_last_greatest_occurs<T>(items: Seq<T>, above: spec_fn(T, T) -> bool)
    requires
        items.len() > 0,
    ensures
        exists|i: int| 0 <= i < items.len() && Some(#[trigger] items[i]) == last_greatest(items, above),
    decreases items.len(),
{
    let rest = items.drop_last();
    let last = items.len() - 1;
    assert(items[last] == items.last());
    if rest.len() > 0 {
        lemma_last_greatest_occurs(rest, above);
        let i = choose|i: int| 0 <= i < rest.len() && Some(rest[i]) == last_greatest(rest, above);
        assert(rest[i] == items[i]);
    }
}

/// The first entry that is wanted is found, and nothing where none is.
pub proof fn law_first_wanted_is_found<T>(items: Seq<T>, wanted: spec_fn(T) -> bool)
    ensures
        forall|at: int|
            0 <= at < items.len() && wanted(#[trigger] items[at]) && (forall|i: int|
                0 <= i < at ==> !wanted(#[trigger] items[i])) ==> first_where(items, wanted) == Some(
                items[at],
            ),
        first_where(items, wanted) is None <==> forall|i: int|
            0 <= i < items.len() ==> !wanted(#[trigger] items[i]),
    decreases items.len(),
{
    if items.len() > 0 && !wanted(items[0]) {
        let rest = items.drop_first();
        law_first_wanted_is_found(rest, wanted);
        assert forall|at: int|
            0 <= at < items.len() && wanted(#[trigger] items[at]) && (forall|i: int|
                0 <= i < at ==> !wanted(#[trigger] items[i])) implies first_where(items, wanted)
            == Some(items[at]) by {
            assert(rest[at - 1] == items[at]);
            assert forall|i: int| 0 <= i < at - 1 implies !wanted(#[trigger] rest[i]) by {
                assert(rest[i] == items[i + 1]);
            }
        }
        if first_where(items, wanted) is None {
            assert forall|i: int| 0 <= i < items.len() implies !wanted(#[trigger] items[i]) by {
                if i > 0 {
                    assert(rest[i - 1] == items[i]);
                }
            }
        } else {
            let k = choose|k: int| 0 <= k < rest.len() && wanted(#[trigger] rest[k]);
            assert(items[k + 1] == rest[k]);
        }
    }
}

/// The last entry that is wanted is found, and nothing where none is.
pub proof fn law_last_wanted_is_found<T>(items: Seq<T>, wanted: spec_fn(T) -> bool)
    ensures
        forall|at: int|
            0 <= at < items.len() && wanted(#[trigger] items[at]) && (forall|i: int|
                at < i < items.len() ==> !wanted(#[trigger] items[i])) ==> last_where(items, wanted)
                == Some(items[at]),
        last_where(items, wanted) is None <==> forall|i: int|
            0 <= i < items.len() ==> !wanted(#[trigger] items[i]),
    decreases items.len(),
{
    if items.len() > 0 && !wanted(items.last()) {
        let rest = items.drop_last();
        law_last_wanted_is_found(rest, wanted);
        assert(items[items.len() - 1] == items.last());
        assert forall|at: int|
            0 <= at < items.len() && wanted(#[trigger] items[at]) && (forall|i: int|
                at < i < items.len() ==> !wanted(#[trigger] items[i])) implies last_where(
            items,
            wanted,
        ) == Some(items[at]) by {
            assert(rest[at] == items[at]);
            assert forall|i: int| at < i < rest.len() implies !wanted(#[trigger] rest[i]) by {
                assert(rest[i] == items[i]);
            }
        }
        if last_where(items, wanted) is None {
            assert forall|i: int| 0 <= i < items.len() implies !wanted(#[trigger] items[i]) by {
                if i < rest.len() {
                    assert(rest[i] == items[i]);
                }
            }
        } else {
            let k = choose|k: int| 0 <= k < rest.len() && wanted(#[trigger] rest[k]);
            assert(items[k] == rest[k]);
        }
    } else if items.len() > 0 {
        assert(items[items.len() - 1] == items.last());
    }
}

/// What is picked are the values of the entries that have one, in their order.
pub proof fn law_picked_keeps_what_is_there<T, U>(items: Seq<T>, pick: spec_fn(T) -> Option<U>)
    ensures
        picked(items, pick) == items.filter(|t: T| pick(t) is Some).map_values(|t: T| pick(t)->0),
    decreases items.len(),
{
    let keep = |t: T| pick(t) is Some;
    let to = |t: T| pick(t)->0;
    reveal(Seq::filter);
    if items.len() > 0 {
        law_picked_keeps_what_is_there(items.drop_last(), pick);
        lemma_filter_push(items.drop_last(), items.last(), keep);
        assert(items.drop_last().push(items.last()) =~= items);
    }
    assert(picked(items, pick) =~= items.filter(keep).map_values(to));
}

pub proof fn lemma_filter_of_map<T, U>(
    items: Seq<T>,
    to: spec_fn(T) -> U,
    keep: spec_fn(U) -> bool,
)
    ensures
        items.map_values(to).filter(keep) == items.filter(|t: T| keep(to(t))).map_values(to),
    decreases items.len(),
{
    let both = |t: T| keep(to(t));
    reveal(Seq::filter);
    if items.len() > 0 {
        let rest = items.drop_last();
        lemma_filter_of_map(rest, to, keep);
        assert(items.map_values(to).drop_last() =~= rest.map_values(to));
    }
    assert(items.map_values(to).filter(keep) =~= items.filter(both).map_values(to));
}

pub proof fn lemma_filter_of_filter<T>(
    items: Seq<T>,
    first: spec_fn(T) -> bool,
    second: spec_fn(T) -> bool,
    both: spec_fn(T) -> bool,
)
    requires
        forall|i: int|
            0 <= i < items.len() ==> both(#[trigger] items[i]) == (first(items[i]) && second(
                items[i],
            )),
    ensures
        items.filter(first).filter(second) == items.filter(both),
    decreases items.len(),
{
    reveal(Seq::filter);
    if items.len() > 0 {
        let rest = items.drop_last();
        assert forall|i: int| 0 <= i < rest.len() implies both(#[trigger] rest[i]) == (first(
            rest[i],
        ) && second(rest[i])) by {
            assert(rest[i] == items[i]);
        }
        lemma_filter_of_filter(rest, first, second, both);
        assert(items[items.len() - 1] == items.last());
        if first(items.last()) {
            assert(items.filter(first).drop_last() =~= rest.filter(first));
        }
    }
}

/// Filters that agree on the entries keep the same.
pub proof fn lemma_same_filter<T>(
    items: Seq<T>,
    first: spec_fn(T) -> bool,
    second: spec_fn(T) -> bool,
)
    requires
        forall|i: int|
            0 <= i < items.len() ==> first(#[trigger] items[i]) == second(items[i]),
    ensures
        items.filter(first) == items.filter(second),
    decreases items.len(),
{
    reveal(Seq::filter);
    if items.len() > 0 {
        let rest = items.drop_last();
        assert forall|i: int| 0 <= i < rest.len() implies first(#[trigger] rest[i]) == second(
            rest[i],
        ) by {
            assert(rest[i] == items[i]);
        }
        lemma_same_filter(rest, first, second);
        assert(items[items.len() - 1] == items.last());
    }
}

} // verus!
