//! What each row of the flow tree says of the ops it was built from.

use crate::flow;
use crate::flow::{FlowMetric, FlowRowView, FlowSample, FlowSort, FlowStats, Ranking};
use crate::flow_laws;
use crate::order;
use crate::radostrace::RadosEventView;
use crate::tally;
use crate::text;
use crate::trace;
use crate::trace::TraceEvent;
use vstd::prelude::*;

verus! {

/// The rows of the first `k` branches begin the rows of the first `n`.
proof fn lemma_branches_begin(
    samples: Seq<FlowSample>,
    labels: Seq<Seq<char>>,
    k: nat,
    n: nat,
    depth: nat,
    levels: nat,
    ranking: Ranking,
    child_limit: usize,
)
    requires
        k <= n <= labels.len(),
        depth < levels,
    ensures
        ({
            let few = flow::branch_rows(samples, labels, k, depth, levels, ranking, child_limit);
            let all = flow::branch_rows(samples, labels, n, depth, levels, ranking, child_limit);
            &&& few.len() <= all.len()
            &&& all.take(few.len() as int) == few
            &&& k < n ==> few.len() < all.len()
        }),
    decreases n - k,
{
    let few = flow::branch_rows(samples, labels, k, depth, levels, ranking, child_limit);
    let all = flow::branch_rows(samples, labels, n, depth, levels, ranking, child_limit);
    if k == n {
        assert(all.take(few.len() as int) =~= few);
    } else {
        let prev = (n - 1) as nat;
        lemma_branches_begin(samples, labels, k, prev, depth, levels, ranking, child_limit);
        let head = flow::branch_rows(samples, labels, prev, depth, levels, ranking, child_limit);
        assert(all.take(few.len() as int) =~= head.take(few.len() as int));
    }
}

/// The rows below the branch of `label`.
pub open spec fn inner_rows(
    samples: Seq<FlowSample>,
    label: Seq<char>,
    depth: nat,
    levels: nat,
    ranking: Ranking,
    child_limit: usize,
) -> Seq<FlowRowView> {
    flow::rows_of(
        flow::below(samples, depth, label),
        depth + 1,
        levels,
        ranking,
        child_limit,
        child_limit,
    )
}

/// The branch of the label at `m` has its row at `p`, and the rows below it follow.
pub open spec fn branch_at(
    rows: Seq<FlowRowView>,
    samples: Seq<FlowSample>,
    labels: Seq<Seq<char>>,
    depth: nat,
    levels: nat,
    ranking: Ranking,
    child_limit: usize,
    m: int,
    p: int,
) -> bool {
    &&& 0 <= m < labels.len()
    &&& {
        let ours = flow::below(samples, depth, labels[m]);
        let inner = inner_rows(samples, labels[m], depth, levels, ranking, child_limit);
        &&& 0 <= p
        &&& p + 1 + inner.len() <= rows.len()
        &&& rows[p] == FlowRowView {
            depth,
            last_child: m + 1 == labels.len(),
            label: labels[m],
            detail: ours.last().details[depth as int],
            stats: flow::stats_of(ours),
        }
        &&& rows.subrange(p + 1, p + 1 + inner.len()) == inner
        &&& forall|k: int| p < k <= p + inner.len() ==> depth < (#[trigger] rows[k]).depth < levels
        &&& p == flow::branch_rows(
            samples,
            labels,
            m as nat,
            depth,
            levels,
            ranking,
            child_limit,
        ).len()
        &&& p + 1 + inner.len() == flow::branch_rows(
            samples,
            labels,
            (m + 1) as nat,
            depth,
            levels,
            ranking,
            child_limit,
        ).len()
    }
}

proof fn lemma_branch_stands(
    samples: Seq<FlowSample>,
    labels: Seq<Seq<char>>,
    depth: nat,
    levels: nat,
    ranking: Ranking,
    child_limit: usize,
    m: int,
)
    requires
        0 <= m < labels.len(),
        depth < levels,
    ensures
        ({
            let rows = flow::branch_rows(
                samples,
                labels,
                labels.len(),
                depth,
                levels,
                ranking,
                child_limit,
            );
            let p = flow::branch_rows(
                samples,
                labels,
                m as nat,
                depth,
                levels,
                ranking,
                child_limit,
            ).len() as int;
            branch_at(rows, samples, labels, depth, levels, ranking, child_limit, m, p)
        }),
{
    let rows = flow::branch_rows(
        samples,
        labels,
        labels.len(),
        depth,
        levels,
        ranking,
        child_limit,
    );
    let next = (m + 1) as nat;
    let head = flow::branch_rows(samples, labels, m as nat, depth, levels, ranking, child_limit);
    let upto = flow::branch_rows(samples, labels, next, depth, levels, ranking, child_limit);
    let p = head.len() as int;
    let ours = flow::below(samples, depth, labels[m]);
    let inner = inner_rows(samples, labels[m], depth, levels, ranking, child_limit);
    let row = FlowRowView {
        depth,
        last_child: m + 1 == labels.len(),
        label: labels[m],
        detail: ours.last().details[depth as int],
        stats: flow::stats_of(ours),
    };
    assert(upto == head.push(row) + inner);
    lemma_branches_begin(samples, labels, next, labels.len(), depth, levels, ranking, child_limit);
    assert(rows.take(upto.len() as int) == upto);
    assert(rows[p] == upto[p]);
    assert(rows.subrange(p + 1, p + 1 + inner.len()) =~= inner) by {
        assert forall|k: int| 0 <= k < inner.len() implies rows[p + 1 + k] == inner[k] by {
            assert(rows[p + 1 + k] == upto[p + 1 + k]);
        }
    }
    flow_laws::law_rows_nest_and_are_capped(
        ours,
        depth + 1,
        levels,
        ranking,
        child_limit,
        child_limit,
    );
    assert forall|k: int| p < k <= p + inner.len() implies depth < (#[trigger] rows[k]).depth
        < levels by {
        assert(rows[k] == upto[k]);
        assert(upto[k] == inner[k - p - 1]);
    }
}

/// The branch that the row at `r` belongs to: its own, or the one it stands below.
proof fn lemma_branch_of_row(
    samples: Seq<FlowSample>,
    labels: Seq<Seq<char>>,
    depth: nat,
    levels: nat,
    ranking: Ranking,
    child_limit: usize,
    r: int,
) -> (found: (int, int))
    requires
        depth < levels,
        0 <= r < flow::branch_rows(
            samples,
            labels,
            labels.len(),
            depth,
            levels,
            ranking,
            child_limit,
        ).len(),
    ensures
        ({
            let rows = flow::branch_rows(
                samples,
                labels,
                labels.len(),
                depth,
                levels,
                ranking,
                child_limit,
            );
            let (m, p) = found;
            &&& branch_at(rows, samples, labels, depth, levels, ranking, child_limit, m, p)
            &&& p <= r <= p + inner_rows(
                samples,
                labels[m],
                depth,
                levels,
                ranking,
                child_limit,
            ).len()
            &&& rows[r].depth == depth <==> p == r
        }),
{
    let m = lemma_place_of_row(
        samples,
        labels,
        labels.len(),
        depth,
        levels,
        ranking,
        child_limit,
        r,
    );
    lemma_branch_stands(samples, labels, depth, levels, ranking, child_limit, m);
    let p = flow::branch_rows(
        samples,
        labels,
        m as nat,
        depth,
        levels,
        ranking,
        child_limit,
    ).len() as int;
    (m, p)
}

proof fn lemma_place_of_row(
    samples: Seq<FlowSample>,
    labels: Seq<Seq<char>>,
    n: nat,
    depth: nat,
    levels: nat,
    ranking: Ranking,
    child_limit: usize,
    r: int,
) -> (m: int)
    requires
        n <= labels.len(),
        depth < levels,
        0 <= r < flow::branch_rows(
            samples,
            labels,
            n,
            depth,
            levels,
            ranking,
            child_limit,
        ).len(),
    ensures
        0 <= m < n,
        flow::branch_rows(
            samples,
            labels,
            m as nat,
            depth,
            levels,
            ranking,
            child_limit,
        ).len() <= r,
        r < flow::branch_rows(
            samples,
            labels,
            (m + 1) as nat,
            depth,
            levels,
            ranking,
            child_limit,
        ).len(),
    decreases n,
{
    let prev = (n - 1) as nat;
    if r < flow::branch_rows(samples, labels, prev, depth, levels, ranking, child_limit).len() {
        lemma_place_of_row(samples, labels, prev, depth, levels, ranking, child_limit, r)
    } else {
        prev as int
    }
}

/// What ranks first: more ops or the longer latency, as the metric asks, first in
/// descending order and last in ascending; the label decides between equals.
pub open spec fn stands_first(
    ranking: Ranking,
    stats: FlowStats,
    label: Seq<char>,
    other: FlowStats,
    other_label: Seq<char>,
) -> bool {
    let (a, b) = match ranking.metric {
        FlowMetric::Ops => (stats.ops, other.ops),
        FlowMetric::Latency => (stats.max_us, other.max_us),
    };
    &&& ranking.sort == FlowSort::Descending ==> a >= b
    &&& ranking.sort == FlowSort::Ascending ==> a <= b
    &&& a == b ==> text::text_before(label, other_label)
}

proof fn lemma_top_order(
    samples: Seq<FlowSample>,
    depth: nat,
    ranking: Ranking,
    limit: usize,
    m: int,
    n: int,
)
    requires
        0 <= m < n < flow::shown_labels(samples, depth, ranking, limit).len(),
    ensures
        ({
            let labels = flow::shown_labels(samples, depth, ranking, limit);
            stands_first(
                ranking,
                flow::stats_of(flow::below(samples, depth, labels[m])),
                labels[m],
                flow::stats_of(flow::below(samples, depth, labels[n])),
                labels[n],
            )
        }),
{
    flow_laws::law_ranking_is_strict(samples, depth, ranking, limit);
    let before = flow::label_order(samples, depth, ranking);
    let all = order::sorted_by(flow::labels_at(samples, depth), before);
    let labels = flow::shown_labels(samples, depth, ranking, limit);
    assert(labels[m] == all[m] && labels[n] == all[n]);
    assert(before(all[m], all[n]));
}

/// Two rows of one level below the same row stand in the order of the ranking: by
/// the ops or by the longest latency, the most first or the least first, and by
/// their labels where these are equal.
pub proof fn law_siblings_are_ranked(
    samples: Seq<FlowSample>,
    depth: nat,
    levels: nat,
    ranking: Ranking,
    limit: usize,
    child_limit: usize,
    i: int,
    j: int,
)
    requires
        ({
            let rows = flow::rows_of(samples, depth, levels, ranking, limit, child_limit);
            &&& 0 <= i < j < rows.len()
            &&& rows[i].depth == rows[j].depth
            &&& forall|k: int| i < k < j ==> (#[trigger] rows[k]).depth >= rows[i].depth
        }),
    ensures
        ({
            let rows = flow::rows_of(samples, depth, levels, ranking, limit, child_limit);
            stands_first(ranking, rows[i].stats, rows[i].label, rows[j].stats, rows[j].label)
        }),
    decreases levels - depth,
{
    let rows = flow::rows_of(samples, depth, levels, ranking, limit, child_limit);
    let labels = flow::shown_labels(samples, depth, ranking, limit);
    let (m, p) = lemma_branch_of_row(samples, labels, depth, levels, ranking, child_limit, i);
    let (n, q) = lemma_branch_of_row(samples, labels, depth, levels, ranking, child_limit, j);
    if rows[i].depth == depth {
        if n <= m {
            lemma_branches_begin(
                samples,
                labels,
                n as nat,
                m as nat,
                depth,
                levels,
                ranking,
                child_limit,
            );
        }
        lemma_top_order(samples, depth, ranking, limit, m, n);
    } else {
        // Both stand below the same row, since no row of this level comes between.
        if q > i {
            assert(rows[q].depth == depth);
        }
        if m != n {
            if m < n {
                lemma_branches_begin(
                    samples,
                    labels,
                    (m + 1) as nat,
                    n as nat,
                    depth,
                    levels,
                    ranking,
                    child_limit,
                );
            } else {
                lemma_branches_begin(
                    samples,
                    labels,
                    (n + 1) as nat,
                    m as nat,
                    depth,
                    levels,
                    ranking,
                    child_limit,
                );
            }
        }
        assert(p == q);
        let inner = inner_rows(samples, labels[m], depth, levels, ranking, child_limit);
        assert(forall|k: int|
            0 <= k < inner.len() ==> #[trigger] inner[k] == rows.subrange(
                p + 1,
                p + 1 + inner.len(),
            )[k]);
        let (a, b) = (i - p - 1, j - p - 1);
        assert(inner[a] == rows[i] && inner[b] == rows[j]);
        assert forall|k: int| a < k < b implies (#[trigger] inner[k]).depth >= inner[a].depth by {
            assert(inner[k] == rows[p + 1 + k]);
        }
        law_siblings_are_ranked(
            flow::below(samples, depth, labels[m]),
            depth + 1,
            levels,
            ranking,
            child_limit,
            child_limit,
            a,
            b,
        );
    }
}

/// A row is marked as the last child exactly where no row of its level follows it
/// below the same row.
pub proof fn law_last_child_has_no_later_sibling(
    samples: Seq<FlowSample>,
    depth: nat,
    levels: nat,
    ranking: Ranking,
    limit: usize,
    child_limit: usize,
    i: int,
)
    requires
        0 <= i < flow::rows_of(samples, depth, levels, ranking, limit, child_limit).len(),
    ensures
        ({
            let rows = flow::rows_of(samples, depth, levels, ranking, limit, child_limit);
            rows[i].last_child <==> !exists|j: int| #[trigger] later_sibling(rows, i, j)
        }),
    decreases levels - depth,
{
    let rows = flow::rows_of(samples, depth, levels, ranking, limit, child_limit);
    let labels = flow::shown_labels(samples, depth, ranking, limit);
    let (m, p) = lemma_branch_of_row(samples, labels, depth, levels, ranking, child_limit, i);
    let inner = inner_rows(samples, labels[m], depth, levels, ranking, child_limit);
    let next = p + 1 + inner.len();
    if m + 1 < labels.len() {
        lemma_branch_stands(samples, labels, depth, levels, ranking, child_limit, m + 1);
        assert(rows[next].depth == depth);
    } else {
        assert(next == rows.len());
    }
    if rows[i].depth == depth {
        if m + 1 < labels.len() {
            assert forall|k: int| i < k < next implies (#[trigger] rows[k]).depth
                >= rows[i].depth by {}
            assert(later_sibling(rows, i, next));
        } else {
            assert forall|j: int| !#[trigger] later_sibling(rows, i, j) by {
                if i < j < rows.len() {
                    assert(rows[j].depth > depth);
                }
            }
        }
    } else {
        assert(forall|k: int|
            0 <= k < inner.len() ==> #[trigger] inner[k] == rows.subrange(
                p + 1,
                p + 1 + inner.len(),
            )[k]);
        let a = i - p - 1;
        assert(inner[a] == rows[i]);
        law_last_child_has_no_later_sibling(
            flow::below(samples, depth, labels[m]),
            depth + 1,
            levels,
            ranking,
            child_limit,
            child_limit,
            a,
        );
        if exists|j: int| #[trigger] later_sibling(rows, i, j) {
            let j = choose|j: int| #[trigger] later_sibling(rows, i, j);
            if j >= next {
                assert(rows[next].depth >= rows[i].depth);
            }
            assert(inner[j - p - 1] == rows[j]);
            assert forall|k: int| a < k < j - p - 1 implies (#[trigger] inner[k]).depth
                >= inner[a].depth by {
                assert(inner[k] == rows[p + 1 + k]);
            }
            assert(later_sibling(inner, a, j - p - 1));
        }
        if exists|b: int| #[trigger] later_sibling(inner, a, b) {
            let b = choose|b: int| #[trigger] later_sibling(inner, a, b);
            assert(inner[b] == rows[p + 1 + b]);
            assert forall|k: int| i < k < p + 1 + b implies (#[trigger] rows[k]).depth
                >= rows[i].depth by {
                assert(inner[k - p - 1] == rows[k]);
            }
            assert(later_sibling(rows, i, p + 1 + b));
        }
    }
}

/// The row at `j` follows the one at `i` on the same level below the same row.
pub open spec fn later_sibling(rows: Seq<FlowRowView>, i: int, j: int) -> bool {
    &&& 0 <= i < j < rows.len()
    &&& rows[j].depth == rows[i].depth
    &&& forall|k: int| i < k < j ==> (#[trigger] rows[k]).depth >= rows[i].depth
}

/// The row at `i` is the row that the one at `j` stands directly below.
pub open spec fn stands_below(rows: Seq<FlowRowView>, i: int, j: int) -> bool {
    &&& 0 <= i < j < rows.len()
    &&& rows[j].depth == rows[i].depth + 1
    &&& forall|k: int| i < k <= j ==> (#[trigger] rows[k]).depth > rows[i].depth
}

/// The numbers of a row are those of its ops.
pub open spec fn totals(stats: FlowStats, latencies: Seq<u64>, sizes: Seq<u64>) -> bool {
    &&& stats.ops == latencies.len()
    &&& stats.sum_us == tally::capped(tally::total(latencies))
    &&& forall|i: int| 0 <= i < latencies.len() ==> #[trigger] latencies[i] <= stats.max_us
    &&& latencies.contains(stats.max_us)
    &&& stats.sum_bytes == tally::capped(tally::total(sizes))
}

proof fn lemma_totals(samples: Seq<FlowSample>, latencies: Seq<u64>, sizes: Seq<u64>)
    requires
        0 < samples.len() <= u64::MAX,
        flow::sample_latencies(samples) == latencies,
        flow::sample_sizes(samples) == sizes,
    ensures
        totals(flow::stats_of(samples), latencies, sizes),
{
    tally::lemma_largest(latencies);
}

proof fn lemma_row_one(
    samples: Seq<FlowSample>,
    depth: nat,
    levels: nat,
    ranking: Ranking,
    limit: usize,
    child_limit: usize,
    i: int,
)
    requires
        ({
            let rows = flow::rows_of(samples, depth, levels, ranking, limit, child_limit);
            0 <= i < rows.len() && rows[i].depth == depth
        }),
    ensures
        ({
            let rows = flow::rows_of(samples, depth, levels, ranking, limit, child_limit);
            let ours = flow::below(samples, depth, rows[i].label);
            &&& ours.len() > 0
            &&& ours.len() <= samples.len()
            &&& rows[i].stats == flow::stats_of(ours)
            &&& rows[i].detail == ours.last().details[depth as int]
        }),
{
    let rows = flow::rows_of(samples, depth, levels, ranking, limit, child_limit);
    let labels = flow::shown_labels(samples, depth, ranking, limit);
    let (m, p) = lemma_branch_of_row(samples, labels, depth, levels, ranking, child_limit, i);
    let label = labels[m];
    samples.lemma_filter_len(flow::has_label(depth, label));
    flow_laws::law_ranking_is_strict(samples, depth, ranking, limit);
    let all = order::sorted_by(
        flow::labels_at(samples, depth),
        flow::label_order(samples, depth, ranking),
    );
    assert(all[m] == label);
    assert(all.contains(label));
    let names = samples.map_values(flow::label_at(depth));
    tally::law_distinct_names_each_entry_once(names);
    assert(names.contains(label));
    let k = choose|k: int| 0 <= k < names.len() && names[k] == label;
    assert(flow::has_label(depth, label)(samples[k]));
    samples.lemma_filter_contains(flow::has_label(depth, label), k);
}

/// The rows below the row at `i` are those of its own samples.
proof fn lemma_step_in(
    samples: Seq<FlowSample>,
    depth: nat,
    levels: nat,
    ranking: Ranking,
    limit: usize,
    child_limit: usize,
    i: int,
    j: int,
)
    requires
        ({
            let rows = flow::rows_of(samples, depth, levels, ranking, limit, child_limit);
            &&& 0 <= i < j < rows.len()
            &&& rows[i].depth == depth
            &&& forall|k: int| i < k <= j ==> (#[trigger] rows[k]).depth > depth
        }),
    ensures
        ({
            let rows = flow::rows_of(samples, depth, levels, ranking, limit, child_limit);
            let inner = inner_rows(samples, rows[i].label, depth, levels, ranking, child_limit);
            &&& j - i <= inner.len()
            &&& forall|k: int| i < k <= j ==> #[trigger] rows[k] == inner[k - i - 1]
        }),
{
    let rows = flow::rows_of(samples, depth, levels, ranking, limit, child_limit);
    let labels = flow::shown_labels(samples, depth, ranking, limit);
    let (m, p) = lemma_branch_of_row(samples, labels, depth, levels, ranking, child_limit, i);
    let inner = inner_rows(samples, labels[m], depth, levels, ranking, child_limit);
    let next = p + 1 + inner.len();
    if j >= next {
        if m + 1 < labels.len() {
            lemma_branch_stands(samples, labels, depth, levels, ranking, child_limit, m + 1);
            assert(rows[next].depth == depth);
        }
    }
    assert forall|k: int| i < k <= j implies #[trigger] rows[k] == inner[k - i - 1] by {
        assert(rows.subrange(p + 1, next)[k - i - 1] == inner[k - i - 1]);
    }
}

/// The samples of a row are those that pass through its label and the labels of
/// the rows it stands below.
proof fn lemma_row_two(
    samples: Seq<FlowSample>,
    levels: nat,
    ranking: Ranking,
    limit: usize,
    child_limit: usize,
    i: int,
    j: int,
)
    requires
        ({
            let rows = flow::rows_of(samples, 0, levels, ranking, limit, child_limit);
            rows[i].depth == 0 && stands_below(rows, i, j)
        }),
    ensures
        ({
            let rows = flow::rows_of(samples, 0, levels, ranking, limit, child_limit);
            let ours = flow::below(flow::below(samples, 0, rows[i].label), 1, rows[j].label);
            &&& ours.len() > 0
            &&& ours.len() <= samples.len()
            &&& rows[j].stats == flow::stats_of(ours)
            &&& rows[j].detail == ours.last().details[1]
        }),
{
    let rows = flow::rows_of(samples, 0, levels, ranking, limit, child_limit);
    let mine = flow::below(samples, 0, rows[i].label);
    lemma_row_one(samples, 0, levels, ranking, limit, child_limit, i);
    lemma_step_in(samples, 0, levels, ranking, limit, child_limit, i, j);
    assert(rows[j] == inner_rows(samples, rows[i].label, 0, levels, ranking, child_limit)[j - i
        - 1]);
    lemma_row_one(mine, 1, levels, ranking, child_limit, child_limit, j - i - 1);
}

proof fn lemma_row_three(
    samples: Seq<FlowSample>,
    levels: nat,
    ranking: Ranking,
    limit: usize,
    child_limit: usize,
    i: int,
    j: int,
    r: int,
)
    requires
        ({
            let rows = flow::rows_of(samples, 0, levels, ranking, limit, child_limit);
            rows[i].depth == 0 && stands_below(rows, i, j) && stands_below(rows, j, r)
        }),
    ensures
        ({
            let rows = flow::rows_of(samples, 0, levels, ranking, limit, child_limit);
            let ours = flow::below(
                flow::below(flow::below(samples, 0, rows[i].label), 1, rows[j].label),
                2,
                rows[r].label,
            );
            &&& ours.len() > 0
            &&& ours.len() <= samples.len()
            &&& rows[r].stats == flow::stats_of(ours)
            &&& rows[r].detail == ours.last().details[2]
        }),
{
    let rows = flow::rows_of(samples, 0, levels, ranking, limit, child_limit);
    let mine = flow::below(samples, 0, rows[i].label);
    let inner = inner_rows(samples, rows[i].label, 0, levels, ranking, child_limit);
    lemma_row_one(samples, 0, levels, ranking, limit, child_limit, i);
    assert forall|k: int| i < k <= r implies (#[trigger] rows[k]).depth > 0 by {}
    lemma_step_in(samples, 0, levels, ranking, limit, child_limit, i, r);
    let (a, b) = (j - i - 1, r - i - 1);
    assert(rows[j] == inner[a] && rows[r] == inner[b]);
    assert forall|k: int| a < k <= b implies (#[trigger] inner[k]).depth > 1 by {
        assert(rows[k + i + 1] == inner[k]);
    }
    lemma_row_one(mine, 1, levels, ranking, child_limit, child_limit, a);
    lemma_step_in(mine, 1, levels, ranking, child_limit, child_limit, a, b);
    assert(inner[b] == inner_rows(mine, rows[j].label, 1, levels, ranking, child_limit)[b - a - 1]);
    lemma_row_one(
        flow::below(mine, 1, rows[j].label),
        2,
        levels,
        ranking,
        child_limit,
        child_limit,
        b - a - 1,
    );
}

/// A row of an OSD totals the ops that osdtrace saw on that OSD and that name a
/// placement group: how many there were, their latencies and sizes, and the
/// slowest. It shows the host that the last of them was seen on.
pub proof fn law_traced_osd_totals_its_ops(
    events: Seq<TraceEvent>,
    ranking: Ranking,
    max_osds: usize,
    max_children: usize,
    i: int,
)
    requires
        events.len() <= u64::MAX,
        ({
            let rows = flow::rows_of(
                flow::trace_samples(events),
                0,
                2,
                ranking,
                max_osds,
                max_children,
            );
            0 <= i < rows.len() && rows[i].depth == 0
        }),
    ensures
        ({
            let rows = flow::rows_of(
                flow::trace_samples(events),
                0,
                2,
                ranking,
                max_osds,
                max_children,
            );
            let ours = events.filter(
                |e: TraceEvent|
                    e.osd@.len() > 0 && e.pg@.len() > 0 && trace::osd_name(e.osd@)
                        == rows[i].label,
            );
            &&& totals(
                rows[i].stats,
                ours.map_values(|e: TraceEvent| e.op_lat_us),
                ours.map_values(|e: TraceEvent| e.size_bytes),
            )
            &&& rows[i].detail == ours.last().host@
        }),
{
    let samples = flow::trace_samples(events);
    let rows = flow::rows_of(samples, 0, 2, ranking, max_osds, max_children);
    let label = rows[i].label;
    let ours = events.filter(
        |e: TraceEvent|
            e.osd@.len() > 0 && e.pg@.len() > 0 && trace::osd_name(e.osd@) == label,
    );
    lemma_row_one(samples, 0, 2, ranking, max_osds, max_children, i);
    lemma_traced(events, label);
    let mine = flow::below(samples, 0, label);
    events.lemma_filter_len(
        |e: TraceEvent|
            e.osd@.len() > 0 && e.pg@.len() > 0 && trace::osd_name(e.osd@) == label,
    );
    assert(flow::sample_latencies(mine) =~= ours.map_values(|e: TraceEvent| e.op_lat_us));
    assert(flow::sample_sizes(mine) =~= ours.map_values(|e: TraceEvent| e.size_bytes));
    lemma_totals(
        mine,
        ours.map_values(|e: TraceEvent| e.op_lat_us),
        ours.map_values(|e: TraceEvent| e.size_bytes),
    );
    assert(mine.last() == flow::trace_sample()(ours.last()));
}

/// The samples of an OSD are those of the events that name it and a PG.
proof fn lemma_traced(events: Seq<TraceEvent>, label: Seq<char>)
    ensures
        flow::below(flow::trace_samples(events), 0, label) == events.filter(
            |e: TraceEvent|
                e.osd@.len() > 0 && e.pg@.len() > 0 && trace::osd_name(e.osd@) == label,
        ).map_values(flow::trace_sample()),
{
    let keep = flow::has_label(0, label);
    let to = flow::trace_sample();
    let named = |e: TraceEvent|
        e.osd@.len() > 0 && e.pg@.len() > 0 && trace::osd_name(e.osd@) == label;
    tally::lemma_filter_of_map(events.filter(flow::has_place()), to, keep);
    tally::lemma_filter_of_filter(
        events,
        flow::has_place(),
        |e: TraceEvent| keep(to(e)),
        named,
    );
}

/// A row of a placement group totals the ops that osdtrace saw on it and on the
/// OSD that it stands below.
pub proof fn law_traced_pg_totals_its_ops(
    events: Seq<TraceEvent>,
    ranking: Ranking,
    max_osds: usize,
    max_children: usize,
    i: int,
    j: int,
)
    requires
        events.len() <= u64::MAX,
        ({
            let rows = flow::rows_of(
                flow::trace_samples(events),
                0,
                2,
                ranking,
                max_osds,
                max_children,
            );
            0 <= i < rows.len() && rows[i].depth == 0 && stands_below(rows, i, j)
        }),
    ensures
        ({
            let rows = flow::rows_of(
                flow::trace_samples(events),
                0,
                2,
                ranking,
                max_osds,
                max_children,
            );
            let ours = events.filter(
                |e: TraceEvent|
                    e.osd@.len() > 0 && e.pg@.len() > 0 && trace::osd_name(e.osd@)
                        == rows[i].label && e.pg@ == rows[j].label,
            );
            &&& totals(
                rows[j].stats,
                ours.map_values(|e: TraceEvent| e.op_lat_us),
                ours.map_values(|e: TraceEvent| e.size_bytes),
            )
            &&& rows[j].detail == Seq::<char>::empty()
        }),
{
    let samples = flow::trace_samples(events);
    let rows = flow::rows_of(samples, 0, 2, ranking, max_osds, max_children);
    let (osd, pg) = (rows[i].label, rows[j].label);
    let on_osd = |e: TraceEvent|
        e.osd@.len() > 0 && e.pg@.len() > 0 && trace::osd_name(e.osd@) == osd;
    let on_pg = |e: TraceEvent|
        e.osd@.len() > 0 && e.pg@.len() > 0 && trace::osd_name(e.osd@) == osd && e.pg@ == pg;
    lemma_row_two(samples, 2, ranking, max_osds, max_children, i, j);
    lemma_traced(events, osd);
    let keep = flow::has_label(1, pg);
    let to = flow::trace_sample();
    tally::lemma_filter_of_map(events.filter(on_osd), to, keep);
    tally::lemma_filter_of_filter(events, on_osd, |e: TraceEvent| keep(to(e)), on_pg);
    let ours = events.filter(on_pg);
    let mine = flow::below(flow::below(samples, 0, osd), 1, pg);
    assert(mine == ours.map_values(to));
    assert(flow::sample_latencies(mine) =~= ours.map_values(|e: TraceEvent| e.op_lat_us));
    assert(flow::sample_sizes(mine) =~= ours.map_values(|e: TraceEvent| e.size_bytes));
    lemma_totals(
        mine,
        ours.map_values(|e: TraceEvent| e.op_lat_us),
        ours.map_values(|e: TraceEvent| e.size_bytes),
    );
}

/// The totals over a tree of osdtrace ops are those of the ops that name an OSD
/// and a placement group, whatever the ranking and the limit on children, as long
/// as no OSD is cut off.
pub proof fn law_traced_totals_are_those_of_the_ops(
    events: Seq<TraceEvent>,
    ranking: Ranking,
    max_osds: usize,
    max_children: usize,
)
    requires
        events.len() <= u64::MAX,
        tally::distinct(
            events.filter(|e: TraceEvent| e.osd@.len() > 0 && e.pg@.len() > 0).map_values(
                |e: TraceEvent| e.osd@,
            ),
        ).len() <= max_osds,
    ensures
        ({
            let placed = events.filter(|e: TraceEvent| e.osd@.len() > 0 && e.pg@.len() > 0);
            let stats = flow::osd_stats(
                flow::rows_of(
                    flow::trace_samples(events),
                    0,
                    2,
                    ranking,
                    max_osds,
                    max_children,
                ),
            );
            let latencies = placed.map_values(|e: TraceEvent| e.op_lat_us);
            let sizes = placed.map_values(|e: TraceEvent| e.size_bytes);
            &&& tally::total(flow::stats_ops(stats)) <= u64::MAX
            &&& flow::together(stats) == (FlowStats {
                ops: placed.len() as u64,
                sum_us: tally::capped(tally::total(latencies)),
                max_us: tally::largest(latencies),
                sum_bytes: tally::capped(tally::total(sizes)),
            })
        }),
{
    let placed = events.filter(|e: TraceEvent| e.osd@.len() > 0 && e.pg@.len() > 0);
    tally::lemma_same_filter(
        events,
        flow::has_place(),
        |e: TraceEvent| e.osd@.len() > 0 && e.pg@.len() > 0,
    );
    let samples = flow::trace_samples(events);
    let ids = placed.map_values(|e: TraceEvent| e.osd@);
    let name = |id: Seq<char>| trace::osd_name(id);
    events.lemma_filter_len(flow::has_place());
    assert(samples.map_values(flow::label_at(0)) =~= ids.map_values(name));
    tally::lemma_distinct_of_map(ids, name);
    flow_laws::law_totals_cover_every_op(samples, 2, ranking, max_osds, max_children);
    assert(flow::sample_latencies(samples) =~= placed.map_values(|e: TraceEvent| e.op_lat_us));
    assert(flow::sample_sizes(samples) =~= placed.map_values(|e: TraceEvent| e.size_bytes));
}

/// The op has a primary OSD, which goes by `label`.
pub open spec fn led_by(e: RadosEventView, label: Seq<char>) -> bool {
    e.acting.len() > 0 && e.acting[0] >= 0 && "osd."@ + text::signed_decimal(e.acting[0] as int)
        == label
}

/// The samples of an OSD are those of the ops that it leads.
proof fn lemma_led(events: Seq<RadosEventView>, hosts: Map<i64, String>, label: Seq<char>)
    ensures
        flow::below(flow::rados_samples(events, hosts), 0, label) == events.filter(
            |e: RadosEventView| led_by(e, label),
        ).map_values(flow::rados_sample(hosts)),
{
    let keep = flow::has_label(0, label);
    let to = flow::rados_sample(hosts);
    let led = |e: RadosEventView| led_by(e, label);
    tally::lemma_filter_of_map(events.filter(flow::has_primary()), to, keep);
    tally::lemma_filter_of_filter(
        events,
        flow::has_primary(),
        |e: RadosEventView| keep(to(e)),
        led,
    );
}

proof fn lemma_rados_totals(
    mine: Seq<FlowSample>,
    ours: Seq<RadosEventView>,
    hosts: Map<i64, String>,
)
    requires
        mine == ours.map_values(flow::rados_sample(hosts)),
        0 < mine.len() <= u64::MAX,
    ensures
        totals(
            flow::stats_of(mine),
            ours.map_values(|e: RadosEventView| e.latency_us),
            ours.map_values(|e: RadosEventView| e.size_bytes),
        ),
{
    assert(flow::sample_latencies(mine) =~= ours.map_values(|e: RadosEventView| e.latency_us));
    assert(flow::sample_sizes(mine) =~= ours.map_values(|e: RadosEventView| e.size_bytes));
    lemma_totals(
        mine,
        ours.map_values(|e: RadosEventView| e.latency_us),
        ours.map_values(|e: RadosEventView| e.size_bytes),
    );
}

/// A row of an OSD totals the client ops whose placement group it leads. It shows
/// the host that is known for it, if one is.
pub proof fn law_leading_osd_totals_its_ops(
    events: Seq<RadosEventView>,
    hosts: Map<i64, String>,
    ranking: Ranking,
    max_osds: usize,
    max_children: usize,
    i: int,
)
    requires
        events.len() <= u64::MAX,
        ({
            let rows = flow::rows_of(
                flow::rados_samples(events, hosts),
                0,
                3,
                ranking,
                max_osds,
                max_children,
            );
            0 <= i < rows.len() && rows[i].depth == 0
        }),
    ensures
        ({
            let rows = flow::rows_of(
                flow::rados_samples(events, hosts),
                0,
                3,
                ranking,
                max_osds,
                max_children,
            );
            let ours = events.filter(|e: RadosEventView| led_by(e, rows[i].label));
            let id = ours.last().acting[0];
            &&& totals(
                rows[i].stats,
                ours.map_values(|e: RadosEventView| e.latency_us),
                ours.map_values(|e: RadosEventView| e.size_bytes),
            )
            &&& hosts.contains_key(id) ==> rows[i].detail == hosts[id]@
            &&& !hosts.contains_key(id) ==> rows[i].detail == Seq::<char>::empty()
        }),
{
    let samples = flow::rados_samples(events, hosts);
    let rows = flow::rows_of(samples, 0, 3, ranking, max_osds, max_children);
    let label = rows[i].label;
    let ours = events.filter(|e: RadosEventView| led_by(e, label));
    lemma_row_one(samples, 0, 3, ranking, max_osds, max_children, i);
    lemma_led(events, hosts, label);
    let mine = flow::below(samples, 0, label);
    events.lemma_filter_len(|e: RadosEventView| led_by(e, label));
    lemma_rados_totals(mine, ours, hosts);
    assert(mine.last() == flow::rados_sample(hosts)(ours.last()));
}

proof fn lemma_led_pg(
    events: Seq<RadosEventView>,
    hosts: Map<i64, String>,
    osd: Seq<char>,
    pg: Seq<char>,
)
    ensures
        flow::below(flow::below(flow::rados_samples(events, hosts), 0, osd), 1, pg)
            == events.filter(|e: RadosEventView| led_by(e, osd) && e.pg == pg).map_values(
            flow::rados_sample(hosts),
        ),
{
    let keep = flow::has_label(1, pg);
    let to = flow::rados_sample(hosts);
    let led = |e: RadosEventView| led_by(e, osd);
    let both = |e: RadosEventView| led_by(e, osd) && e.pg == pg;
    lemma_led(events, hosts, osd);
    tally::lemma_filter_of_map(events.filter(led), to, keep);
    tally::lemma_filter_of_filter(events, led, |e: RadosEventView| keep(to(e)), both);
}

/// A row of a placement group totals the client ops on it that the OSD above it
/// leads. It shows the acting set that the last of them named.
pub proof fn law_led_pg_totals_its_ops(
    events: Seq<RadosEventView>,
    hosts: Map<i64, String>,
    ranking: Ranking,
    max_osds: usize,
    max_children: usize,
    i: int,
    j: int,
)
    requires
        events.len() <= u64::MAX,
        ({
            let rows = flow::rows_of(
                flow::rados_samples(events, hosts),
                0,
                3,
                ranking,
                max_osds,
                max_children,
            );
            0 <= i < rows.len() && rows[i].depth == 0 && stands_below(rows, i, j)
        }),
    ensures
        ({
            let rows = flow::rows_of(
                flow::rados_samples(events, hosts),
                0,
                3,
                ranking,
                max_osds,
                max_children,
            );
            let ours = events.filter(
                |e: RadosEventView| led_by(e, rows[i].label) && e.pg == rows[j].label,
            );
            &&& totals(
                rows[j].stats,
                ours.map_values(|e: RadosEventView| e.latency_us),
                ours.map_values(|e: RadosEventView| e.size_bytes),
            )
            &&& rows[j].detail == flow::acting_text(ours.last().acting)
        }),
{
    let samples = flow::rados_samples(events, hosts);
    let rows = flow::rows_of(samples, 0, 3, ranking, max_osds, max_children);
    let (osd, pg) = (rows[i].label, rows[j].label);
    let ours = events.filter(|e: RadosEventView| led_by(e, osd) && e.pg == pg);
    events.lemma_filter_len(flow::has_primary());
    lemma_row_two(samples, 3, ranking, max_osds, max_children, i, j);
    lemma_led_pg(events, hosts, osd, pg);
    let mine = flow::below(flow::below(samples, 0, osd), 1, pg);
    lemma_rados_totals(mine, ours, hosts);
    assert(mine.last() == flow::rados_sample(hosts)(ours.last()));
}

/// A row of an object totals the client ops on that object in the placement group,
/// and under the OSD, that it stands below.
pub proof fn law_object_totals_its_ops(
    events: Seq<RadosEventView>,
    hosts: Map<i64, String>,
    ranking: Ranking,
    max_osds: usize,
    max_children: usize,
    i: int,
    j: int,
    r: int,
)
    requires
        events.len() <= u64::MAX,
        ({
            let rows = flow::rows_of(
                flow::rados_samples(events, hosts),
                0,
                3,
                ranking,
                max_osds,
                max_children,
            );
            &&& 0 <= i < rows.len()
            &&& rows[i].depth == 0
            &&& stands_below(rows, i, j)
            &&& stands_below(rows, j, r)
        }),
    ensures
        ({
            let rows = flow::rows_of(
                flow::rados_samples(events, hosts),
                0,
                3,
                ranking,
                max_osds,
                max_children,
            );
            let ours = events.filter(
                |e: RadosEventView|
                    led_by(e, rows[i].label) && e.pg == rows[j].label && e.object
                        == rows[r].label,
            );
            &&& totals(
                rows[r].stats,
                ours.map_values(|e: RadosEventView| e.latency_us),
                ours.map_values(|e: RadosEventView| e.size_bytes),
            )
            &&& rows[r].detail == Seq::<char>::empty()
        }),
{
    let samples = flow::rados_samples(events, hosts);
    let rows = flow::rows_of(samples, 0, 3, ranking, max_osds, max_children);
    let (osd, pg, object) = (rows[i].label, rows[j].label, rows[r].label);
    let in_pg = |e: RadosEventView| led_by(e, osd) && e.pg == pg;
    let all = |e: RadosEventView| led_by(e, osd) && e.pg == pg && e.object == object;
    let keep = flow::has_label(2, object);
    let to = flow::rados_sample(hosts);
    events.lemma_filter_len(flow::has_primary());
    lemma_row_three(samples, 3, ranking, max_osds, max_children, i, j, r);
    lemma_led_pg(events, hosts, osd, pg);
    tally::lemma_filter_of_map(events.filter(in_pg), to, keep);
    tally::lemma_filter_of_filter(events, in_pg, |e: RadosEventView| keep(to(e)), all);
    let mine = flow::below(flow::below(flow::below(samples, 0, osd), 1, pg), 2, object);
    lemma_rados_totals(mine, events.filter(all), hosts);
}

/// A label that has no row was cut by the limit: the level shows as many rows as it
/// may, and each of them ranks before it.
pub proof fn law_only_the_limit_cuts_a_label(
    samples: Seq<FlowSample>,
    depth: nat,
    levels: nat,
    ranking: Ranking,
    limit: usize,
    child_limit: usize,
    x: int,
)
    requires
        depth < levels,
        0 <= x < samples.len(),
    ensures
        ({
            let rows = flow::rows_of(samples, depth, levels, ranking, limit, child_limit);
            let label = samples[x].path[depth as int];
            let ours = samples.filter(|s: FlowSample| s.path[depth as int] == label);
            ||| exists|r: int|
                0 <= r < rows.len() && (#[trigger] rows[r]).depth == depth && rows[r].label == label
            ||| {
                &&& rows.filter(|row: FlowRowView| row.depth == depth).len() == limit
                &&& forall|r: int|
                    0 <= r < rows.len() && (#[trigger] rows[r]).depth == depth ==> stands_first(
                        ranking,
                        rows[r].stats,
                        rows[r].label,
                        flow::stats_of(ours),
                        label,
                    )
            }
        }),
{
    let rows = flow::rows_of(samples, depth, levels, ranking, limit, child_limit);
    let labels = flow::shown_labels(samples, depth, ranking, limit);
    let before = flow::label_order(samples, depth, ranking);
    let all = order::sorted_by(flow::labels_at(samples, depth), before);
    let label = samples[x].path[depth as int];
    let names = samples.map_values(flow::label_at(depth));
    flow_laws::law_ranking_is_strict(samples, depth, ranking, limit);
    tally::law_distinct_names_each_entry_once(names);
    assert(names[x] == label);
    assert(names.contains(label));
    assert(all.contains(label));
    let at = choose|at: int| 0 <= at < all.len() && all[at] == label;
    if at < labels.len() {
        lemma_branch_stands(samples, labels, depth, levels, ranking, child_limit, at);
        let p = flow::branch_rows(
            samples,
            labels,
            at as nat,
            depth,
            levels,
            ranking,
            child_limit,
        ).len() as int;
        assert(labels[at] == all[at]);
        assert(rows[p].depth == depth && rows[p].label == label);
    } else {
        lemma_level_count(
            samples,
            labels,
            labels.len(),
            depth,
            levels,
            ranking,
            child_limit,
        );
        assert(flow::has_label(depth, label) =~= (|s: FlowSample| s.path[depth as int] == label));
        assert forall|r: int|
            0 <= r < rows.len() && (#[trigger] rows[r]).depth == depth implies stands_first(
            ranking,
            rows[r].stats,
            rows[r].label,
            flow::stats_of(samples.filter(|s: FlowSample| s.path[depth as int] == label)),
            label,
        ) by {
            let (m, p) = lemma_branch_of_row(
                samples,
                labels,
                depth,
                levels,
                ranking,
                child_limit,
                r,
            );
            assert(labels[m] == all[m]);
            assert(before(all[m], all[at]));
        }
    }
}

proof fn lemma_level_count(
    samples: Seq<FlowSample>,
    labels: Seq<Seq<char>>,
    n: nat,
    depth: nat,
    levels: nat,
    ranking: Ranking,
    child_limit: usize,
)
    requires
        n <= labels.len(),
        depth < levels,
    ensures
        flow::branch_rows(samples, labels, n, depth, levels, ranking, child_limit).filter(
            |row: FlowRowView| row.depth == depth,
        ).len() == n,
    decreases n,
{
    let level = |row: FlowRowView| row.depth == depth;
    let rows = flow::branch_rows(samples, labels, n, depth, levels, ranking, child_limit);
    if n == 0 {
        reveal(Seq::filter);
    } else {
        let prev = (n - 1) as nat;
        lemma_level_count(samples, labels, prev, depth, levels, ranking, child_limit);
        let head = flow::branch_rows(samples, labels, prev, depth, levels, ranking, child_limit);
        let ours = flow::below(samples, depth, labels[n - 1]);
        let inner = inner_rows(samples, labels[n - 1], depth, levels, ranking, child_limit);
        let row = FlowRowView {
            depth,
            last_child: n == labels.len(),
            label: labels[n - 1],
            detail: ours.last().details[depth as int],
            stats: flow::stats_of(ours),
        };
        assert(rows == head.push(row) + inner);
        Seq::filter_distributes_over_add(head.push(row), inner, level);
        tally::lemma_filter_push(head, row, level);
        flow_laws::law_rows_nest_and_are_capped(
            ours,
            depth + 1,
            levels,
            ranking,
            child_limit,
            child_limit,
        );
        let deeper = inner.filter(level);
        if deeper.len() > 0 {
            inner.lemma_filter_pred(level, 0);
            inner.lemma_filter_contains_rev(level, deeper[0]);
            let k = choose|k: int| 0 <= k < inner.len() && inner[k] == deeper[0];
            assert(inner[k].depth > depth);
        }
    }
}

/// The totals that the panel shows are those of its OSD rows: their ops and sizes
/// and latencies added up, and the longest of their latencies. Rows of other levels
/// do not count again.
pub proof fn law_totals_are_those_of_the_osd_rows(rows: Seq<FlowRowView>)
    requires
        tally::total(
            rows.filter(|r: FlowRowView| r.depth == 0).map_values(|r: FlowRowView| r.stats.ops),
        ) <= u64::MAX,
    ensures
        ({
            let osds = rows.filter(|r: FlowRowView| r.depth == 0);
            let shown = flow::together(flow::osd_stats(rows));
            &&& shown.ops == tally::total(osds.map_values(|r: FlowRowView| r.stats.ops))
            &&& shown.sum_us == tally::capped(
                tally::total(osds.map_values(|r: FlowRowView| r.stats.sum_us)),
            )
            &&& shown.sum_bytes == tally::capped(
                tally::total(osds.map_values(|r: FlowRowView| r.stats.sum_bytes)),
            )
            &&& forall|i: int|
                0 <= i < osds.len() ==> (#[trigger] osds[i]).stats.max_us <= shown.max_us
            &&& osds.len() > 0 ==> exists|i: int|
                0 <= i < osds.len() && (#[trigger] osds[i]).stats.max_us == shown.max_us
            &&& osds.len() == 0 ==> shown.max_us == 0
        }),
{
    let osds = rows.filter(|r: FlowRowView| r.depth == 0);
    assert(flow::is_osd_row() =~= (|r: FlowRowView| r.depth == 0));
    let stats = flow::osd_stats(rows);
    assert(stats =~= osds.map_values(|r: FlowRowView| r.stats));
    assert(flow::stats_ops(stats) =~= osds.map_values(|r: FlowRowView| r.stats.ops));
    assert(stats.map_values(|s: FlowStats| s.sum_us) =~= osds.map_values(
        |r: FlowRowView| r.stats.sum_us,
    ));
    assert(stats.map_values(|s: FlowStats| s.sum_bytes) =~= osds.map_values(
        |r: FlowRowView| r.stats.sum_bytes,
    ));
    let most = stats.map_values(|s: FlowStats| s.max_us);
    tally::lemma_largest(most);
    assert forall|i: int| 0 <= i < osds.len() implies (#[trigger] osds[i]).stats.max_us
        <= flow::together(stats).max_us by {
        assert(most[i] == osds[i].stats.max_us);
    }
    if osds.len() > 0 {
        let i = choose|i: int| 0 <= i < most.len() && most[i] == tally::largest(most);
        assert(osds[i].stats.max_us == flow::together(stats).max_us);
    }
}

/// Recording an op counts it, adds its latency and size as far as 64 bits hold the
/// sums, and raises the maximum to it.
pub proof fn law_recording_adds_one_op(stats: FlowStats, latency_us: u64, size_bytes: u64)
    requires
        stats.ops < u64::MAX,
    ensures
        ({
            let more = stats.with(latency_us, size_bytes);
            &&& more.ops == stats.ops + 1
            &&& stats.sum_us + latency_us <= u64::MAX ==> more.sum_us == stats.sum_us + latency_us
            &&& stats.sum_us + latency_us > u64::MAX ==> more.sum_us == u64::MAX
            &&& stats.sum_bytes + size_bytes <= u64::MAX ==> more.sum_bytes == stats.sum_bytes
                + size_bytes
            &&& stats.sum_bytes + size_bytes > u64::MAX ==> more.sum_bytes == u64::MAX
            &&& more.max_us >= stats.max_us && more.max_us >= latency_us
            &&& more.max_us == stats.max_us || more.max_us == latency_us
        }),
{
}

/// Merging totals adds the ops, latencies and sizes of both, as far as 64 bits hold
/// the sums, and keeps the larger maximum.
pub proof fn law_merging_adds_both(stats: FlowStats, other: FlowStats)
    requires
        stats.ops + other.ops <= u64::MAX,
    ensures
        ({
            let both = stats.and(other);
            &&& both.ops == stats.ops + other.ops
            &&& stats.sum_us + other.sum_us <= u64::MAX ==> both.sum_us == stats.sum_us
                + other.sum_us
            &&& stats.sum_us + other.sum_us > u64::MAX ==> both.sum_us == u64::MAX
            &&& stats.sum_bytes + other.sum_bytes <= u64::MAX ==> both.sum_bytes
                == stats.sum_bytes + other.sum_bytes
            &&& stats.sum_bytes + other.sum_bytes > u64::MAX ==> both.sum_bytes == u64::MAX
            &&& both.max_us >= stats.max_us && both.max_us >= other.max_us
            &&& both.max_us == stats.max_us || both.max_us == other.max_us
        }),
{
}

/// A mean is the sum divided by the count and rounded down, and zero of nothing.
pub proof fn law_mean_is_the_share_of_each(sum: u64, count: u64)
    ensures
        count > 0 ==> flow::mean(sum, count) * count <= sum < (flow::mean(sum, count) + 1) * count,
        count == 0 ==> flow::mean(sum, count) == 0,
{
    if count > 0 {
        let (s, n) = (sum as int, count as int);
        assert((s / n) * n <= s < (s / n + 1) * n) by (nonlinear_arith)
            requires
                n > 0,
                s >= 0,
        ;
    }
}

/// Branches are ranked by their ops where ops are asked for, and by their longest
/// latency where latency is.
pub proof fn law_rank_follows_the_metric(stats: FlowStats)
    ensures
        stats.rank(FlowMetric::Ops) == stats.ops,
        stats.rank(FlowMetric::Latency) == stats.max_us,
{
}

/// An OSD goes by one name, however it was written: its name begins with `osd.`,
/// naming it again changes nothing, and a bare id gets the prefix.
pub proof fn law_osd_names_are_uniform(name: Seq<char>)
    ensures
        text::begins(trace::osd_name(name), "osd."@),
        trace::osd_name(trace::osd_name(name)) == trace::osd_name(name),
        trace::osd_name("osd."@ + name) == "osd."@ + name,
        !text::begins(name, "osd."@) ==> trace::osd_name(name) == "osd."@ + name,
{
    let given = "osd."@ + name;
    assert(given.take("osd."@.len() as int) =~= "osd."@);
    assert(text::begins(given, "osd."@));
}

/// The rows below the one at `i` end before `end`.
pub open spec fn ends_at(rows: Seq<FlowRowView>, i: int, end: int) -> bool {
    &&& 0 <= i < end <= rows.len()
    &&& forall|k: int| i < k < end ==> (#[trigger] rows[k]).depth > rows[i].depth
    &&& end == rows.len() || rows[end].depth <= rows[i].depth
}

/// What an op names below a row that is shown has a row there, unless the limit on
/// children cut it: then the row shows as many children as it may.
pub proof fn law_only_the_limit_cuts_a_child(
    samples: Seq<FlowSample>,
    depth: nat,
    levels: nat,
    ranking: Ranking,
    limit: usize,
    child_limit: usize,
    i: int,
    end: int,
    x: int,
)
    requires
        ({
            let rows = flow::rows_of(samples, depth, levels, ranking, limit, child_limit);
            &&& depth + 1 < levels
            &&& 0 <= i < rows.len()
            &&& rows[i].depth == depth
            &&& ends_at(rows, i, end)
            &&& 0 <= x < samples.len()
            &&& samples[x].path[depth as int] == rows[i].label
        }),
    ensures
        ({
            let rows = flow::rows_of(samples, depth, levels, ranking, limit, child_limit);
            ||| exists|j: int| #[trigger]
                stands_below(rows, i, j) && rows[j].label == samples[x].path[depth as int + 1]
            ||| rows.subrange(i + 1, end).filter(
                |row: FlowRowView| row.depth == depth + 1,
            ).len() == child_limit
        }),
{
    let rows = flow::rows_of(samples, depth, levels, ranking, limit, child_limit);
    let labels = flow::shown_labels(samples, depth, ranking, limit);
    let (m, p) = lemma_branch_of_row(samples, labels, depth, levels, ranking, child_limit, i);
    let mine = flow::below(samples, depth, labels[m]);
    let inner = inner_rows(samples, labels[m], depth, levels, ranking, child_limit);
    let next = p + 1 + inner.len();
    if m + 1 < labels.len() {
        lemma_branch_stands(samples, labels, depth, levels, ranking, child_limit, m + 1);
        assert(rows[next].depth == depth);
    }
    assert(end == next);
    assert(rows.subrange(i + 1, end) == inner);
    assert(flow::has_label(depth, labels[m])(samples[x]));
    samples.lemma_filter_contains(flow::has_label(depth, labels[m]), x);
    let y = choose|y: int| 0 <= y < mine.len() && mine[y] == samples[x];
    law_only_the_limit_cuts_a_label(
        mine,
        depth + 1,
        levels,
        ranking,
        child_limit,
        child_limit,
        y,
    );
    let wanted = samples[x].path[depth as int + 1];
    if exists|r: int|
        0 <= r < inner.len() && (#[trigger] inner[r]).depth == depth + 1 && inner[r].label
            == wanted {
        let r = choose|r: int|
            0 <= r < inner.len() && (#[trigger] inner[r]).depth == depth + 1 && inner[r].label
                == wanted;
        let j = p + 1 + r;
        assert(rows.subrange(p + 1, next)[r] == rows[j]);
        assert(stands_below(rows, i, j));
    }
}

/// Client ops are preferred: the tree is built from radostrace where it saw any op,
/// and from osdtrace where it saw none.
pub proof fn law_client_ops_are_preferred(
    rados_events: Seq<RadosEventView>,
    trace_events: Seq<TraceEvent>,
    hosts: Map<i64, String>,
)
    ensures
        rados_events.len() > 0 ==> flow::flow_samples(rados_events, trace_events, hosts)
            == flow::rados_samples(rados_events, hosts),
        rados_events.len() == 0 ==> flow::flow_samples(rados_events, trace_events, hosts)
            == flow::trace_samples(trace_events),
        flow::rados_samples(rados_events, hosts).len() == 0 <==> forall|k: int|
            0 <= k < rados_events.len() ==> (#[trigger] rados_events[k]).acting.len() == 0
                || rados_events[k].acting[0] < 0,
        flow::trace_samples(trace_events).len() == 0 <==> forall|k: int|
            0 <= k < trace_events.len() ==> (#[trigger] trace_events[k]).osd@.len() == 0
                || trace_events[k].pg@.len() == 0,
{
    let led = rados_events.filter(flow::has_primary());
    let placed = trace_events.filter(flow::has_place());
    if led.len() > 0 {
        rados_events.lemma_filter_pred(flow::has_primary(), 0);
        rados_events.lemma_filter_contains_rev(flow::has_primary(), led[0]);
        let k = choose|k: int| 0 <= k < rados_events.len() && rados_events[k] == led[0];
        assert(rados_events[k].acting.len() > 0);
    } else {
        assert forall|k: int| 0 <= k < rados_events.len() implies (
        #[trigger] rados_events[k]).acting.len() == 0 || rados_events[k].acting[0] < 0 by {
            if flow::has_primary()(rados_events[k]) {
                rados_events.lemma_filter_contains(flow::has_primary(), k);
            }
        }
    }
    if placed.len() > 0 {
        trace_events.lemma_filter_pred(flow::has_place(), 0);
        trace_events.lemma_filter_contains_rev(flow::has_place(), placed[0]);
        let k = choose|k: int| 0 <= k < trace_events.len() && trace_events[k] == placed[0];
        assert(trace_events[k].osd@.len() > 0);
    } else {
        assert forall|k: int| 0 <= k < trace_events.len() implies (
        #[trigger] trace_events[k]).osd@.len() == 0 || trace_events[k].pg@.len() == 0 by {
            if flow::has_place()(trace_events[k]) {
                trace_events.lemma_filter_contains(flow::has_place(), k);
            }
        }
    }
}

/// What is said of a row and of a path are its own fields.
pub proof fn law_rows_and_paths_say_their_own_fields(row: flow::FlowRow, path: flow::FlowPath)
    ensures
        row@.depth == row.depth && row@.last_child == row.last_child,
        row@.label == row.label@ && row@.detail == row.detail@ && row@.stats == row.stats,
        path@.osd == path.osd@ && path@.host == path.host@,
        path@.pg == path.pg@ && path@.acting == path.acting@ && path@.stats == path.stats,
        path@.object is Some <==> path.object is Some,
        path.object is Some ==> path@.object == Some(path.object->0@),
{
}

} // verus!
