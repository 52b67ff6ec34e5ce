//! What holds of the flow tree as a whole.

use crate::flow;
use crate::flow::{
    Branch, FlowMetric, FlowPathView, FlowRowView, FlowSample, FlowSort, FlowSource, FlowStats, Ranking,
};
use crate::order;
use crate::radostrace;
use crate::radostrace::RadosEventView;
use crate::tally;
use crate::text;
use vstd::prelude::*;

verus! {

/// Toggling twice changes nothing, and toggling once does.
pub proof fn law_toggling_twice_changes_nothing(metric: FlowMetric, sort: FlowSort)
    ensures
        metric.other().other() == metric,
        metric.other() != metric,
        sort.other().other() == sort,
        sort.other() != sort,
{
}

/// Reversing the sort reverses the ranking of branches that the metric tells
/// apart, and keeps the order of the labels where it does not.
pub proof fn law_reversing_the_sort_reverses_the_ranking(
    metric: FlowMetric,
    sort: FlowSort,
    stats: FlowStats,
    label: Seq<char>,
    other: FlowStats,
    other_label: Seq<char>,
)
    ensures
        ({
            let (here, back) = (Ranking { metric, sort }, Ranking { metric, sort: sort.other() });
            if stats.rank(metric) != other.rank(metric) {
                flow::ranks_before(here, stats, label, other, other_label) <==> flow::ranks_before(
                    back,
                    other,
                    other_label,
                    stats,
                    label,
                )
            } else {
                flow::ranks_before(here, stats, label, other, other_label) <==> flow::ranks_before(
                    back,
                    stats,
                    label,
                    other,
                    other_label,
                )
            }
        }),
{
}

/// The labels of the children differ.
pub open spec fn labels_differ(branch: Branch) -> bool {
    forall|i: int, j: int|
        0 <= i < j < branch.children@.len() ==> (#[trigger] branch.children@[i]).0@ != (
        #[trigger] branch.children@[j]).0@
}

/// Visiting a child never gives two children the same label.
pub proof fn law_labels_of_children_stay_apart(
    before: Branch,
    after: Branch,
    key: Seq<char>,
    child: Branch,
)
    requires
        labels_differ(before),
        flow::child_set(before, after, key, child),
    ensures
        labels_differ(after),
{
    let at = flow::child_place(before.children@, key);
    flow::lemma_child_place_fits(before.children@, key);
    let (old_ones, new_ones) = (before.children@, after.children@);
    if at < old_ones.len() {
        assert forall|i: int, j: int| 0 <= i < j < new_ones.len() implies (#[trigger] new_ones[i]).0@
            != (#[trigger] new_ones[j]).0@ by {
            assert(old_ones[i].0@ != old_ones[j].0@);
        }
    } else {
        assert forall|i: int, j: int| 0 <= i < j < new_ones.len() implies (#[trigger] new_ones[i]).0@
            != (#[trigger] new_ones[j]).0@ by {
            assert(new_ones.take(at)[i] == old_ones[i]);
            if j < at {
                assert(new_ones.take(at)[j] == old_ones[j]);
                assert(old_ones[i].0@ != old_ones[j].0@);
            }
        }
    }
}

proof fn lemma_ranks(
    ranking: Ranking,
    x: (FlowStats, Seq<char>),
    y: (FlowStats, Seq<char>),
    z: (FlowStats, Seq<char>),
)
    ensures
        !flow::ranks_before(ranking, x.0, x.1, x.0, x.1),
        flow::ranks_before(ranking, x.0, x.1, y.0, y.1) && flow::ranks_before(
            ranking,
            y.0,
            y.1,
            z.0,
            z.1,
        ) ==> flow::ranks_before(ranking, x.0, x.1, z.0, z.1),
        !flow::ranks_before(ranking, x.0, x.1, y.0, y.1) && !flow::ranks_before(
            ranking,
            y.0,
            y.1,
            z.0,
            z.1,
        ) ==> !flow::ranks_before(ranking, x.0, x.1, z.0, z.1),
        x.1 != y.1 ==> flow::ranks_before(ranking, x.0, x.1, y.0, y.1) || flow::ranks_before(
            ranking,
            y.0,
            y.1,
            x.0,
            x.1,
        ),
{
    text::law_text_before_is_a_strict_total_order(x.1, y.1, z.1);
    text::law_text_before_is_a_strict_total_order(z.1, y.1, x.1);
    text::law_text_before_is_a_strict_total_order(x.1, z.1, y.1);
    text::law_text_before_is_a_strict_total_order(x.1, x.1, x.1);
}

/// Every label of a level ranks before all that follow it, ties included: two
/// labels never change places while their totals stay the same. So the labels
/// that a limit keeps rank before those that it drops.
pub proof fn law_ranking_is_strict(samples: Seq<FlowSample>, depth: nat, ranking: Ranking, limit: usize)
    ensures
        ({
            let before = flow::label_order(samples, depth, ranking);
            let all = order::sorted_by(flow::labels_at(samples, depth), before);
            &&& forall|i: int, j: int|
                0 <= i < j < all.len() ==> before(#[trigger] all[i], #[trigger] all[j])
            &&& forall|label: Seq<char>| #[trigger]
                all.contains(label) <==> flow::labels_at(samples, depth).contains(label)
            &&& flow::shown_labels(samples, depth, ranking, limit) == flow::top(all, limit)
        }),
{
    broadcast use vstd::seq_lib::group_to_multiset_ensures;

    let labels = flow::labels_at(samples, depth);
    let before = flow::label_order(samples, depth, ranking);
    let all = order::sorted_by(labels, before);
    let stats = |l: Seq<char>| (flow::stats_of(flow::below(samples, depth, l)), l);
    assert forall|a: Seq<char>| !#[trigger] before(a, a) by {
        lemma_ranks(ranking, stats(a), stats(a), stats(a));
    }
    assert forall|a: Seq<char>, b: Seq<char>, c: Seq<char>| #[trigger]
        before(a, b) && #[trigger] before(b, c) implies before(a, c) by {
        lemma_ranks(ranking, stats(a), stats(b), stats(c));
    }
    assert forall|a: Seq<char>, b: Seq<char>, c: Seq<char>|
        !(#[trigger] before(a, b)) && !(#[trigger] before(b, c)) implies !before(a, c) by {
        lemma_ranks(ranking, stats(a), stats(b), stats(c));
    }
    order::law_sorted_by_orders_the_same_entries(labels, before);
    tally::law_distinct_names_each_entry_once(samples.map_values(flow::label_at(depth)));
    labels.lemma_multiset_has_no_duplicates();
    all.lemma_multiset_has_no_duplicates_conv();
    assert forall|i: int, j: int| 0 <= i < j < all.len() implies before(
        #[trigger] all[i],
        #[trigger] all[j],
    ) by {
        assert(!before(all[j], all[i]));
        assert(all[i] != all[j]);
        lemma_ranks(ranking, stats(all[i]), stats(all[j]), stats(all[j]));
    }
    assert forall|label: Seq<char>| #[trigger] all.contains(label) <==> labels.contains(label) by {
        assert(all.to_multiset().count(label) == labels.to_multiset().count(label));
    }
}

/// The branches of a level cover what the level above them covers: their totals
/// together are those of the ops that they split.
pub proof fn law_branches_add_up(samples: Seq<FlowSample>, depth: nat)
    requires
        samples.len() <= u64::MAX,
    ensures
        flow::together(
            flow::labels_at(samples, depth).map_values(
                |l: Seq<char>| flow::stats_of(flow::below(samples, depth, l)),
            ),
        ) == flow::stats_of(samples),
{
    let labels = flow::labels_at(samples, depth);
    let to = |l: Seq<char>| flow::stats_of(flow::below(samples, depth, l));
    let stats = labels.map_values(to);
    // Ops.
    lemma_ops_add_up(samples, depth);
    // Latencies and sizes.
    lemma_group_capped(
        samples,
        depth,
        |s: FlowSample| s.latency_us,
        stats.map_values(|s: FlowStats| s.sum_us),
    );
    lemma_group_capped(
        samples,
        depth,
        |s: FlowSample| s.size_bytes,
        stats.map_values(|s: FlowStats| s.sum_bytes),
    );
    // The largest latency.
    lemma_group_largest(samples, depth, stats.map_values(|s: FlowStats| s.max_us));
}

/// The branches of a level count every op once.
proof fn lemma_ops_add_up(samples: Seq<FlowSample>, depth: nat)
    requires
        samples.len() <= u64::MAX,
    ensures
        tally::total(
            flow::stats_ops(
                flow::labels_at(samples, depth).map_values(
                    |l: Seq<char>| flow::stats_of(flow::below(samples, depth, l)),
                ),
            ),
        ) == samples.len(),
{
    let labels = flow::labels_at(samples, depth);
    let to = |l: Seq<char>| flow::stats_of(flow::below(samples, depth, l));
    let ops = |l: Seq<char>| to(l).ops;
    let one = |s: FlowSample| 1nat;
    let counts = |l: Seq<char>| tally::sum_of(flow::below(samples, depth, l), one);
    lemma_group_sum(samples, depth, one);
    tally::lemma_sum_of_ones(samples, one);
    assert(flow::stats_ops(labels.map_values(to)) =~= labels.map_values(ops));
    tally::lemma_total_is_sum(labels, ops);
    assert forall|i: int| 0 <= i < labels.len() implies (|l: Seq<char>| ops(l) as nat)(
        #[trigger] labels[i],
    ) == counts(labels[i]) by {
        tally::lemma_sum_of_ones(flow::below(samples, depth, labels[i]), one);
        samples.lemma_filter_len(flow::has_label(depth, labels[i]));
    }
    tally::lemma_sum_of_same(labels, |l: Seq<char>| ops(l) as nat, counts);
}

proof fn lemma_group_sum(samples: Seq<FlowSample>, depth: nat, weight: spec_fn(FlowSample) -> nat)
    ensures
        tally::sum_of(
            flow::labels_at(samples, depth),
            |l: Seq<char>| tally::sum_of(flow::below(samples, depth, l), weight),
        ) == tally::sum_of(samples, weight),
{
    let label = flow::label_at(depth);
    let labels = flow::labels_at(samples, depth);
    let ours = |l: Seq<char>| tally::sum_of(flow::below(samples, depth, l), weight);
    let theirs = |l: Seq<char>|
        tally::sum_of(samples.filter(tally::labelled(label, l)), weight);
    tally::law_groups_add_up(samples, label, weight);
    assert forall|i: int| 0 <= i < labels.len() implies ours(#[trigger] labels[i]) == theirs(
        labels[i],
    ) by {
        let l = labels[i];
        assert(flow::has_label(depth, l) =~= tally::labelled(label, l));
    }
    tally::lemma_sum_of_same(labels, ours, theirs);
}

proof fn lemma_group_capped(
    samples: Seq<FlowSample>,
    depth: nat,
    number: spec_fn(FlowSample) -> u64,
    parts: Seq<u64>,
)
    requires
        parts.len() == flow::labels_at(samples, depth).len(),
        forall|i: int|
            0 <= i < parts.len() ==> #[trigger] parts[i] == tally::capped(
                tally::total(
                    flow::below(samples, depth, flow::labels_at(samples, depth)[i]).map_values(
                        number,
                    ),
                ),
            ),
    ensures
        tally::capped(tally::total(parts)) == tally::capped(
            tally::total(samples.map_values(number)),
        ),
{
    let labels = flow::labels_at(samples, depth);
    let weight = |s: FlowSample| number(s) as nat;
    let part = |l: Seq<char>| tally::total(flow::below(samples, depth, l).map_values(number));
    let kept = |l: Seq<char>| tally::capped(part(l));
    assert(parts =~= labels.map_values(kept));
    lemma_group_sum(samples, depth, weight);
    tally::lemma_total_is_sum(samples, number);
    tally::lemma_total_is_sum(labels, kept);
    tally::lemma_capped_parts(labels, part);
    let sums = |l: Seq<char>| tally::sum_of(flow::below(samples, depth, l), weight);
    assert forall|i: int| 0 <= i < labels.len() implies part(#[trigger] labels[i]) == sums(
        labels[i],
    ) by {
        tally::lemma_total_is_sum(flow::below(samples, depth, labels[i]), number);
    }
    tally::lemma_sum_of_same(labels, part, sums);
    assert((|l: Seq<char>| kept(l) as nat) =~= (|l: Seq<char>| tally::capped(part(l)) as nat));
}

proof fn lemma_group_largest(samples: Seq<FlowSample>, depth: nat, parts: Seq<u64>)
    requires
        parts.len() == flow::labels_at(samples, depth).len(),
        forall|i: int|
            0 <= i < parts.len() ==> #[trigger] parts[i] == tally::largest(
                flow::sample_latencies(
                    flow::below(samples, depth, flow::labels_at(samples, depth)[i]),
                ),
            ),
    ensures
        tally::largest(parts) == tally::largest(flow::sample_latencies(samples)),
{
    let label = flow::label_at(depth);
    let names = samples.map_values(label);
    let labels = flow::labels_at(samples, depth);
    let all = flow::sample_latencies(samples);
    tally::law_distinct_names_each_entry_once(names);
    tally::lemma_largest(parts);
    tally::lemma_largest(all);
    if parts.len() > 0 {
        let i = choose|i: int| 0 <= i < parts.len() && parts[i] == tally::largest(parts);
        let ours = flow::below(samples, depth, labels[i]);
        let some = flow::sample_latencies(ours);
        tally::lemma_largest(some);
        if some.len() > 0 {
            let k = choose|k: int| 0 <= k < some.len() && some[k] == tally::largest(some);
            samples.lemma_filter_contains_rev(flow::has_label(depth, labels[i]), ours[k]);
            let m = choose|m: int| 0 <= m < samples.len() && samples[m] == ours[k];
            assert(all[m] == some[k]);
        }
    }
    if all.len() > 0 {
        let m = choose|m: int| 0 <= m < all.len() && all[m] == tally::largest(all);
        let l = label(samples[m]);
        assert(names[m] == l);
        assert(names.contains(l));
        assert(labels.contains(l));
        let i = choose|i: int| 0 <= i < labels.len() && labels[i] == l;
        let ours = flow::below(samples, depth, l);
        assert(flow::has_label(depth, l)(samples[m]));
        samples.lemma_filter_contains(flow::has_label(depth, l), m);
        let k = choose|k: int| 0 <= k < ours.len() && ours[k] == samples[m];
        let some = flow::sample_latencies(ours);
        tally::lemma_largest(some);
        assert(some[k] == all[m]);
        assert(parts[i] == tally::largest(some));
    }
}

/// How many rows a level and the levels below it can have.
pub open spec fn most_rows(depth: nat, levels: nat, limit: nat, child_limit: nat) -> nat
    decreases levels - depth,
{
    if depth >= levels {
        0
    } else {
        limit * (1 + most_rows(depth + 1, levels, child_limit, child_limit))
    }
}

/// Rows of the tree from `depth` on: they begin with a row of that depth, and
/// each further row stands at most one level deeper than the one above it.
pub open spec fn nested(rows: Seq<FlowRowView>, depth: nat, levels: nat) -> bool {
    &&& rows.len() > 0 ==> rows[0].depth == depth
    &&& forall|i: int| 0 <= i < rows.len() ==> depth <= (#[trigger] rows[i]).depth < levels
    &&& forall|i: int| 0 < i < rows.len() ==> (#[trigger] rows[i]).depth <= rows[i - 1].depth + 1
}

/// The rows nest, none is deeper than the source names levels, and the limits
/// bound how many there are.
pub proof fn law_rows_nest_and_are_capped(
    samples: Seq<FlowSample>,
    depth: nat,
    levels: nat,
    ranking: Ranking,
    limit: usize,
    child_limit: usize,
)
    ensures
        ({
            let rows = flow::rows_of(samples, depth, levels, ranking, limit, child_limit);
            &&& nested(rows, depth, levels)
            &&& rows.len() <= most_rows(depth, levels, limit as nat, child_limit as nat)
        }),
    decreases levels - depth, 1nat, 0nat,
{
    if depth < levels {
        let labels = flow::shown_labels(samples, depth, ranking, limit);
        lemma_branch_rows(
            samples,
            labels,
            labels.len(),
            depth,
            levels,
            ranking,
            child_limit,
        );
        let each = 1 + most_rows(depth + 1, levels, child_limit as nat, child_limit as nat);
        assert(labels.len() * each <= limit * each) by (nonlinear_arith)
            requires
                labels.len() <= limit,
                each >= 0,
        ;
    }
}

proof fn lemma_branch_rows(
    samples: Seq<FlowSample>,
    labels: Seq<Seq<char>>,
    n: nat,
    depth: nat,
    levels: nat,
    ranking: Ranking,
    child_limit: usize,
)
    requires
        n <= labels.len(),
        depth < levels,
    ensures
        ({
            let rows = flow::branch_rows(samples, labels, n, depth, levels, ranking, child_limit);
            &&& nested(rows, depth, levels)
            &&& rows.len() <= n * (1 + most_rows(
                depth + 1,
                levels,
                child_limit as nat,
                child_limit as nat,
            ))
            &&& rows.len() >= n
            &&& flow::is_osd_row()(rows[0]) || depth > 0 || n == 0
            &&& depth == 0 ==> flow::osd_stats(rows) == labels.take(n as int).map_values(
                |l: Seq<char>| flow::stats_of(flow::below(samples, 0, l)),
            )
        }),
    decreases levels - depth, 0nat, n,
{
    let rows = flow::branch_rows(samples, labels, n, depth, levels, ranking, child_limit);
    let each = 1 + most_rows(depth + 1, levels, child_limit as nat, child_limit as nat);
    if n == 0 {
        assert(0 * each == 0) by (nonlinear_arith);
        if depth == 0 {
            reveal(Seq::filter);
            assert(flow::osd_stats(rows) =~= labels.take(0).map_values(
                |l: Seq<char>| flow::stats_of(flow::below(samples, 0, l)),
            ));
        }
    } else {
        let prev = (n - 1) as nat;
        lemma_branch_rows(samples, labels, prev, depth, levels, ranking, child_limit);
        let label = labels[n - 1];
        let ours = flow::below(samples, depth, label);
        law_rows_nest_and_are_capped(
            ours,
            depth + 1,
            levels,
            ranking,
            child_limit,
            child_limit,
        );
        let head = flow::branch_rows(samples, labels, prev, depth, levels, ranking, child_limit);
        let tail = flow::rows_of(ours, depth + 1, levels, ranking, child_limit, child_limit);
        let row = FlowRowView {
            depth,
            last_child: n == labels.len(),
            label,
            detail: ours.last().details[depth as int],
            stats: flow::stats_of(ours),
        };
        assert(rows == head.push(row) + tail);
        assert(n * each == prev * each + each) by (nonlinear_arith)
            requires
                n == prev + 1,
        ;
        assert forall|i: int| 0 <= i < rows.len() implies depth <= (#[trigger] rows[i]).depth
            < levels by {
            if i < head.len() {
                assert(rows[i] == head[i]);
            } else if i > head.len() {
                assert(rows[i] == tail[i - head.len() - 1]);
            }
        }
        assert forall|i: int| 0 < i < rows.len() implies (#[trigger] rows[i]).depth <= rows[i
            - 1].depth + 1 by {
            if i < head.len() {
                assert(rows[i] == head[i]);
                assert(rows[i - 1] == head[i - 1]);
            } else if i == head.len() {
                assert(rows[i] == row);
            } else if i == head.len() + 1 {
                assert(rows[i] == tail[0]);
                assert(rows[i - 1] == row);
            } else {
                assert(rows[i] == tail[i - head.len() - 1]);
                assert(rows[i - 1] == tail[i - 1 - head.len() - 1]);
            }
        }
        if n == 1 {
            assert(rows[0] == row);
        } else {
            assert(rows[0] == head[0]);
        }
        if depth == 0 {
            let to = |l: Seq<char>| flow::stats_of(flow::below(samples, 0, l));
            Seq::filter_distributes_over_add(head.push(row), tail, flow::is_osd_row());
            tally::lemma_filter_push(head, row, flow::is_osd_row());
            lemma_no_osd_rows(tail, levels);
            assert(flow::osd_stats(rows) =~= flow::osd_stats(head).push(row.stats));
            assert(labels.take(n as int).map_values(to) =~= labels.take(prev as int).map_values(
                to,
            ).push(row.stats));
        }
    }
}

proof fn lemma_no_osd_rows(rows: Seq<FlowRowView>, levels: nat)
    requires
        nested(rows, 1, levels),
    ensures
        rows.filter(flow::is_osd_row()) == Seq::<FlowRowView>::empty(),
{
    let osds = rows.filter(flow::is_osd_row());
    if osds.len() > 0 {
        rows.lemma_filter_pred(flow::is_osd_row(), 0);
        rows.lemma_filter_contains_rev(flow::is_osd_row(), osds[0]);
        let i = choose|i: int| 0 <= i < rows.len() && rows[i] == osds[0];
        assert(rows[i].depth == 0);
    }
    assert(osds =~= Seq::<FlowRowView>::empty());
}

/// The OSDs that a tree shows count no op twice, so their ops can be totalled.
pub proof fn law_shown_ops_can_be_totalled(
    samples: Seq<FlowSample>,
    levels: nat,
    ranking: Ranking,
    max_osds: usize,
    max_children: usize,
)
    requires
        samples.len() <= u64::MAX,
    ensures
        tally::total(
            flow::stats_ops(
                flow::osd_stats(
                    flow::rows_of(samples, 0, levels, ranking, max_osds, max_children),
                ),
            ),
        ) <= samples.len(),
{
    let rows = flow::rows_of(samples, 0, levels, ranking, max_osds, max_children);
    if levels == 0 {
        reveal(Seq::filter);
        assert(flow::stats_ops(flow::osd_stats(rows)) =~= Seq::<u64>::empty());
    } else {
        let labels = flow::labels_at(samples, 0);
        let before = flow::label_order(samples, 0, ranking);
        let sorted = order::sorted_by(labels, before);
        let shown = flow::shown_labels(samples, 0, ranking, max_osds);
        let to = |l: Seq<char>| flow::stats_of(flow::below(samples, 0, l));
        let ops = |l: Seq<char>| to(l).ops;
        lemma_branch_rows(samples, shown, shown.len(), 0, levels, ranking, max_children);
        assert(shown.take(shown.len() as int) =~= shown);
        assert(flow::stats_ops(flow::osd_stats(rows)) =~= shown.map_values(ops));
        assert(shown.map_values(ops) =~= sorted.map_values(ops).take(shown.len() as int));
        tally::lemma_total_of_first(sorted.map_values(ops), shown.len() as int);
        lemma_sorted_total(labels, before, ops);
        assert(flow::stats_ops(labels.map_values(to)) =~= labels.map_values(ops));
        lemma_ops_add_up(samples, 0);
    }
}

/// The totals that the panel shows cover every op that the tree was built from,
/// as long as no OSD is cut off.
pub proof fn law_totals_cover_every_op(
    samples: Seq<FlowSample>,
    levels: nat,
    ranking: Ranking,
    max_osds: usize,
    max_children: usize,
)
    requires
        samples.len() <= u64::MAX,
        flow::labels_at(samples, 0).len() <= max_osds,
        levels > 0,
    ensures
        flow::together(
            flow::osd_stats(
                flow::rows_of(samples, 0, levels, ranking, max_osds, max_children),
            ),
        ) == flow::stats_of(samples),
        tally::total(
            flow::stats_ops(
                flow::osd_stats(
                    flow::rows_of(samples, 0, levels, ranking, max_osds, max_children),
                ),
            ),
        ) <= u64::MAX,
{
    law_shown_ops_can_be_totalled(samples, levels, ranking, max_osds, max_children);
    let labels = flow::labels_at(samples, 0);
    let before = flow::label_order(samples, 0, ranking);
    let sorted = order::sorted_by(labels, before);
    let shown = flow::shown_labels(samples, 0, ranking, max_osds);
    let to = |l: Seq<char>| flow::stats_of(flow::below(samples, 0, l));
    order::law_sorted_by_orders_the_same_entries(labels, before);
    assert(shown == sorted);
    lemma_branch_rows(samples, shown, shown.len(), 0, levels, ranking, max_children);
    assert(shown.take(shown.len() as int) =~= shown);
    let stats = flow::osd_stats(
        flow::rows_of(samples, 0, levels, ranking, max_osds, max_children),
    );
    assert(stats =~= sorted.map_values(to));
    let base = labels.map_values(to);
    law_branches_add_up(samples, 0);
    let ops = |l: Seq<char>| to(l).ops;
    let us = |l: Seq<char>| to(l).sum_us;
    let most = |l: Seq<char>| to(l).max_us;
    let bytes = |l: Seq<char>| to(l).sum_bytes;
    lemma_sorted_total(labels, before, ops);
    lemma_sorted_total(labels, before, us);
    lemma_sorted_total(labels, before, bytes);
    tally::lemma_sorted_largest(labels, before, most);
    assert(flow::stats_ops(stats) =~= sorted.map_values(ops));
    assert(flow::stats_ops(base) =~= labels.map_values(ops));
    assert(stats.map_values(|s: FlowStats| s.sum_us) =~= sorted.map_values(us));
    assert(base.map_values(|s: FlowStats| s.sum_us) =~= labels.map_values(us));
    assert(stats.map_values(|s: FlowStats| s.max_us) =~= sorted.map_values(most));
    assert(base.map_values(|s: FlowStats| s.max_us) =~= labels.map_values(most));
    assert(stats.map_values(|s: FlowStats| s.sum_bytes) =~= sorted.map_values(bytes));
    assert(base.map_values(|s: FlowStats| s.sum_bytes) =~= labels.map_values(bytes));
}

/// The id of the primary of an op.
pub open spec fn primary_of() -> spec_fn(RadosEventView) -> i64 {
    |e: RadosEventView| e.acting[0]
}

/// The totals over a tree of radostrace ops are those of the ops with a primary,
/// whatever the ranking and the limit on children, as long as no primary is cut
/// off: placement groups and objects are not counted again.
pub proof fn law_rados_totals_are_those_of_the_ops(
    events: Seq<RadosEventView>,
    hosts: Map<i64, String>,
    ranking: Ranking,
    max_osds: usize,
    max_children: usize,
)
    requires
        events.len() <= u64::MAX,
        tally::distinct(
            events.filter(flow::has_primary()).map_values(primary_of()),
        ).len() <= max_osds,
    ensures
        ({
            let placed = events.filter(flow::has_primary());
            let stats = flow::osd_stats(
                flow::rows_of(
                    flow::rados_samples(events, hosts),
                    0,
                    3,
                    ranking,
                    max_osds,
                    max_children,
                ),
            );
            let latencies = placed.map_values(|e: RadosEventView| e.latency_us);
            let sizes = placed.map_values(|e: RadosEventView| e.size_bytes);
            &&& tally::total(flow::stats_ops(stats)) <= u64::MAX
            &&& flow::together(stats) == (FlowStats {
                ops: placed.len() as u64,
                sum_us: tally::capped(tally::total(latencies)),
                max_us: tally::largest(latencies),
                sum_bytes: tally::capped(tally::total(sizes)),
            })
        }),
{
    let placed = events.filter(flow::has_primary());
    let samples = flow::rados_samples(events, hosts);
    let ids = placed.map_values(primary_of());
    let name = |id: i64| "osd."@ + text::signed_decimal(id as int);
    events.lemma_filter_len(flow::has_primary());
    assert(samples.map_values(flow::label_at(0)) =~= ids.map_values(name));
    tally::lemma_distinct_of_map(ids, name);
    law_totals_cover_every_op(samples, 3, ranking, max_osds, max_children);
    assert(flow::sample_latencies(samples) =~= placed.map_values(
        |e: RadosEventView| e.latency_us,
    ));
    assert(flow::sample_sizes(samples) =~= placed.map_values(|e: RadosEventView| e.size_bytes));
}

proof fn lemma_sorted_total(
    labels: Seq<Seq<char>>,
    before: spec_fn(Seq<char>, Seq<char>) -> bool,
    number: spec_fn(Seq<char>) -> u64,
)
    ensures
        tally::total(order::sorted_by(labels, before).map_values(number)) == tally::total(
            labels.map_values(number),
        ),
{
    let sorted = order::sorted_by(labels, before);
    tally::lemma_total_is_sum(sorted, number);
    tally::lemma_total_is_sum(labels, number);
    tally::lemma_sorted_sum(labels, before, |l: Seq<char>| number(l) as nat);
}

/// Picks the rows of the last level.
pub open spec fn ends_path(levels: nat) -> spec_fn(FlowRowView) -> bool {
    |row: FlowRowView| row.depth == levels - 1
}

proof fn lemma_nested_context(rows: Seq<FlowRowView>, levels: nat)
    requires
        nested(rows, 0, levels),
        rows.len() > 0,
    ensures
        flow::last_osd(rows) is Some,
        rows.last().depth > 0 ==> flow::last_pg(rows) is Some,
    decreases rows.len(),
{
    if rows.len() > 1 {
        let rest = rows.drop_last();
        assert(nested(rest, 0, levels)) by {
            assert forall|i: int| 0 <= i < rest.len() implies 0 <= (#[trigger] rest[i]).depth
                < levels by {
                assert(rest[i] == rows[i]);
            }
            assert forall|i: int| 0 < i < rest.len() implies (#[trigger] rest[i]).depth <= rest[i
                - 1].depth + 1 by {
                assert(rest[i] == rows[i]);
            }
        }
        lemma_nested_context(rest, levels);
        assert(rows[rows.len() - 1].depth <= rows[rows.len() - 2].depth + 1);
    }
}

/// The path that ends at the row `end` runs from the OSD at `osd` through the PG at
/// `pg`: no other OSD, and no other PG, stands between them and the row.
pub open spec fn runs_through(
    rows: Seq<FlowRowView>,
    osd: int,
    pg: int,
    end: int,
    levels: nat,
    path: FlowPathView,
) -> bool {
    &&& 0 <= osd < pg <= end < rows.len()
    &&& rows[osd].depth == 0
    &&& rows[pg].depth == 1
    &&& rows[end].depth == levels - 1
    &&& forall|k: int| osd < k <= end ==> (#[trigger] rows[k]).depth > 0
    &&& forall|k: int| pg < k <= end ==> (#[trigger] rows[k]).depth > 1
    &&& path == FlowPathView {
        osd: rows[osd].label,
        host: rows[osd].detail,
        pg: rows[pg].label,
        acting: rows[pg].detail,
        object: if levels == 3 {
            Some(rows[end].label)
        } else {
            None
        },
        stats: rows[end].stats,
    }
}

/// The places of the rows of the last level, in their order.
pub open spec fn end_places(rows: Seq<FlowRowView>, levels: nat) -> Seq<int>
    decreases rows.len(),
{
    if rows.len() == 0 {
        Seq::empty()
    } else {
        let head = end_places(rows.drop_last(), levels);
        if ends_path(levels)(rows.last()) {
            head.push(rows.len() - 1)
        } else {
            head
        }
    }
}

proof fn lemma_osd_above(rows: Seq<FlowRowView>) -> (osd: int)
    requires
        flow::last_osd(rows) is Some,
    ensures
        0 <= osd < rows.len(),
        rows[osd].depth == 0,
        flow::last_osd(rows) == Some(rows[osd]),
        forall|k: int| osd < k < rows.len() ==> (#[trigger] rows[k]).depth > 0,
    decreases rows.len(),
{
    if rows.last().depth == 0 {
        rows.len() - 1
    } else {
        let rest = rows.drop_last();
        let osd = lemma_osd_above(rest);
        assert forall|k: int| osd < k < rows.len() implies (#[trigger] rows[k]).depth > 0 by {
            if k < rest.len() {
                assert(rest[k] == rows[k]);
            }
        }
        osd
    }
}

proof fn lemma_pg_above(rows: Seq<FlowRowView>) -> (pg: int)
    requires
        flow::last_pg(rows) is Some,
    ensures
        0 <= pg < rows.len(),
        rows[pg].depth == 1,
        flow::last_pg(rows) == Some(rows[pg]),
        forall|k: int| pg < k < rows.len() ==> (#[trigger] rows[k]).depth > 1,
    decreases rows.len(),
{
    if rows.last().depth == 1 {
        rows.len() - 1
    } else {
        let rest = rows.drop_last();
        let pg = lemma_pg_above(rest);
        assert forall|k: int| pg < k < rows.len() implies (#[trigger] rows[k]).depth > 1 by {
            if k < rest.len() {
                assert(rest[k] == rows[k]);
            }
        }
        pg
    }
}

/// The path at `i` ends at the last-level row that is the `i`th.
pub open spec fn path_runs(
    rows: Seq<FlowRowView>,
    levels: nat,
    paths: Seq<FlowPathView>,
    i: int,
) -> bool {
    exists|osd: int, pg: int|
        #[trigger] runs_through(rows, osd, pg, end_places(rows, levels)[i], levels, paths[i])
}

/// Every row of the last level that the source names ends one path, in the order
/// of the rows, and the path names the OSD and the PG above that row, the host and
/// the acting set that they show, and the totals of the row.
pub proof fn law_every_last_row_ends_one_path(
    rows: Seq<FlowRowView>,
    levels: nat,
    source: FlowSource,
)
    requires
        nested(rows, 0, levels),
        levels == 2 && source == FlowSource::Osd || levels == 3 && source == FlowSource::Rados,
    ensures
        flow::paths_of(rows, source).len() == end_places(rows, levels).len(),
        end_places(rows, levels).len() == rows.filter(ends_path(levels)).len(),
        forall|i: int|
            0 <= i < flow::paths_of(rows, source).len() ==> #[trigger] path_runs(
                rows,
                levels,
                flow::paths_of(rows, source),
                i,
            ),
    decreases rows.len(),
{
    reveal(Seq::filter);
    if rows.len() > 0 {
        let rest = rows.drop_last();
        assert(nested(rest, 0, levels)) by {
            assert forall|i: int| 0 <= i < rest.len() implies 0 <= (#[trigger] rest[i]).depth
                < levels by {
                assert(rest[i] == rows[i]);
            }
            assert forall|i: int| 0 < i < rest.len() implies (#[trigger] rest[i]).depth <= rest[i
                - 1].depth + 1 by {
                assert(rest[i] == rows[i]);
            }
        }
        law_every_last_row_ends_one_path(rest, levels, source);
        lemma_nested_context(rows, levels);
        assert(rows[rows.len() - 1].depth < levels);
        let paths = flow::paths_of(rows, source);
        let head = flow::paths_of(rest, source);
        let ends = end_places(rows, levels);
        assert forall|i: int| 0 <= i < paths.len() implies #[trigger] path_runs(
            rows,
            levels,
            paths,
            i,
        ) by {
            if i < head.len() {
                assert(path_runs(rest, levels, head, i));
                let end = end_places(rest, levels)[i];
                let (osd, pg) = choose|osd: int, pg: int|
                    #[trigger] runs_through(rest, osd, pg, end, levels, head[i]);
                assert forall|k: int| osd < k <= end implies (#[trigger] rows[k]).depth > 0 by {
                    assert(rest[k] == rows[k]);
                }
                assert forall|k: int| pg < k <= end implies (#[trigger] rows[k]).depth > 1 by {
                    assert(rest[k] == rows[k]);
                }
                assert(runs_through(rows, osd, pg, ends[i], levels, paths[i]));
            } else {
                let osd = lemma_osd_above(rows);
                let pg = lemma_pg_above(rows);
                if pg <= osd {
                    assert(rows[osd].depth == 0);
                    assert(rows[pg].depth == 1);
                }
                assert(runs_through(rows, osd, pg, ends[i], levels, paths[i]));
            }
        }
    }
}

/// The acting set that a row shows reads back as the one that the trace named.
pub proof fn law_acting_set_reads_back(acting: Seq<i64>)
    ensures
        radostrace::acting_of(flow::acting_text(acting)) == acting,
{
    reveal_strlit("[");
    reveal_strlit("]");
    reveal_strlit(",");
    let ids = acting.map_values(|id: i64| text::signed_decimal(id as int));
    let inner = text::joined(ids, ","@);
    let shown = flow::acting_text(acting);
    assert(","@ =~= seq![',']);
    lemma_joined_chars(acting);
    assert(shown.drop_first() =~= inner + "]"@);
    let opened = text::trim_front(shown, text::only('['));
    assert(opened == inner + "]"@) by {
        assert(text::trim_front(inner + "]"@, text::only('[')) == inner + "]"@);
    }
    assert(opened.drop_last() =~= inner);
    assert(text::trim_back(opened, text::only(']')) == inner) by {
        assert(text::trim_back(inner, text::only(']')) == inner);
    }
    if acting.len() == 0 {
        let none = Seq::<char>::empty();
        assert(inner =~= none);
        let parts = text::split_on(none, ',');
        assert(parts =~= seq![none]);
        assert(text::trimmed(none) =~= none);
        assert(parts.drop_last() =~= Seq::<Seq<char>>::empty());
        assert(radostrace::numbers_in(Seq::<Seq<char>>::empty()) == Seq::<i64>::empty());
        assert(acting =~= Seq::<i64>::empty());
    } else {
        assert forall|i: int| 0 <= i < ids.len() implies !(#[trigger] ids[i]).contains(',') by {
            text::lemma_signed_decimal_chars(acting[i] as int);
        }
        text::law_joined_texts_split_back(ids, ',');
        lemma_numbers_in(acting);
    }
}

proof fn lemma_joined_chars(acting: Seq<i64>)
    ensures
        ({
            let inner = text::joined(
                acting.map_values(|id: i64| text::signed_decimal(id as int)),
                ","@,
            );
            &&& acting.len() > 0 ==> inner.len() > 0
            &&& forall|i: int|
                0 <= i < inner.len() ==> text::is_digit(#[trigger] inner[i]) || inner[i] == '-'
                    || inner[i] == ','
        }),
    decreases acting.len(),
{
    reveal_strlit(",");
    let to = |id: i64| text::signed_decimal(id as int);
    let ids = acting.map_values(to);
    if acting.len() > 0 {
        let rest = acting.drop_last();
        lemma_joined_chars(rest);
        text::lemma_signed_decimal_chars(acting.last() as int);
        assert(ids.drop_last() =~= rest.map_values(to));
        assert(ids.last() == text::signed_decimal(acting.last() as int));
    }
}

proof fn lemma_numbers_in(acting: Seq<i64>)
    ensures
        radostrace::numbers_in(
            acting.map_values(|id: i64| text::signed_decimal(id as int)),
        ) == acting,
    decreases acting.len(),
{
    let to = |id: i64| text::signed_decimal(id as int);
    let ids = acting.map_values(to);
    if acting.len() > 0 {
        let rest = acting.drop_last();
        lemma_numbers_in(rest);
        assert(ids.drop_last() =~= rest.map_values(to));
        let last = text::signed_decimal(acting.last() as int);
        text::lemma_signed_decimal_chars(acting.last() as int);
        assert(text::is_digit(last[0]) || last[0] == '-');
        assert(text::is_digit(last[last.len() - 1]) || last[last.len() - 1] == '-');
        text::lemma_trimmed_keeps(last);
        text::law_decimal_reads_back(0, acting.last());
        assert(acting =~= rest.push(acting.last()));
    } else {
        assert(acting =~= Seq::<i64>::empty());
    }
}

} // verus!
