//! Builds the OSD to PG to object aggregation behind the flow panel.
//!
//! Both trace sources already carry the mapping. radostrace lines name the
//! object, its placement group, and the acting set, which gives all three
//! levels. osdtrace lines name the OSD and the placement group but not the
//! object, so that source collapses to two levels. Neither needs an extra
//! remote command.

use crate::flow_laws;
use crate::order;
use crate::radostrace;
use crate::radostrace::{RadosEvent, RadosEventView};
use crate::tally;
use crate::text;
use crate::trace;
use crate::trace::TraceEvent;
use std::collections::HashMap;
use vstd::prelude::*;

verus! {

#[derive(Clone, Copy, Debug, PartialEq, Eq, Structural)]
pub enum FlowMetric {
    Ops,
    Latency,
}

impl FlowMetric {
    pub fn label(self) -> (out: &'static str)
        ensures
            out@ == match self {
                FlowMetric::Ops => "ops"@,
                FlowMetric::Latency => "latency"@,
            },
    {
        match self {
            FlowMetric::Ops => "ops",
            FlowMetric::Latency => "latency",
        }
    }

    /// The other metric.
    pub open spec fn other(self) -> FlowMetric {
        match self {
            FlowMetric::Ops => FlowMetric::Latency,
            FlowMetric::Latency => FlowMetric::Ops,
        }
    }

    pub fn toggled(self) -> (out: Self)
        ensures
            out == self.other(),
    {
        match self {
            FlowMetric::Ops => FlowMetric::Latency,
            FlowMetric::Latency => FlowMetric::Ops,
        }
    }
}

#[derive(Clone, Copy, Debug, PartialEq, Eq, Structural)]
pub enum FlowSort {
    Descending,
    Ascending,
}

impl FlowSort {
    pub fn label(self) -> (out: &'static str)
        ensures
            out@ == match self {
                FlowSort::Descending => "desc"@,
                FlowSort::Ascending => "asc"@,
            },
    {
        match self {
            FlowSort::Descending => "desc",
            FlowSort::Ascending => "asc",
        }
    }

    /// The opposite order.
    pub open spec fn other(self) -> FlowSort {
        match self {
            FlowSort::Descending => FlowSort::Ascending,
            FlowSort::Ascending => FlowSort::Descending,
        }
    }

    pub fn toggled(self) -> (out: Self)
        ensures
            out == self.other(),
    {
        match self {
            FlowSort::Descending => FlowSort::Ascending,
            FlowSort::Ascending => FlowSort::Descending,
        }
    }
}

/// Which source the tree was built from. The panel reports it so an empty tree
/// is distinguishable from a tree that simply cannot name objects.
#[derive(Clone, Copy, Debug, PartialEq, Eq, Structural)]
pub enum FlowSource {
    /// radostrace: OSD, PG, and object.
    Rados,
    /// osdtrace: OSD and PG only.
    Osd,
    Empty,
}

/// The totals of some ops.
#[derive(Clone, Copy, Debug, PartialEq, Eq, Structural)]
pub struct FlowStats {
    pub ops: u64,
    pub sum_us: u64,
    pub max_us: u64,
    pub sum_bytes: u64,
}

/// The totals of no ops.
pub open spec fn no_stats() -> FlowStats {
    FlowStats { ops: 0, sum_us: 0, max_us: 0, sum_bytes: 0 }
}

pub open spec fn saturated(a: u64, b: u64) -> u64 {
    tally::capped((a + b) as nat)
}

pub open spec fn higher(a: u64, b: u64) -> u64 {
    if a < b {
        b
    } else {
        a
    }
}

fn saturating(a: u64, b: u64) -> (out: u64)
    ensures
        out == saturated(a, b),
{
    if a > u64::MAX - b {
        u64::MAX
    } else {
        a + b
    }
}

/// `sum / count`, zero where nothing was counted.
pub open spec fn mean(sum: u64, count: u64) -> u64 {
    if count == 0 {
        0
    } else {
        (sum / count) as u64
    }
}

impl Default for FlowStats {
    fn default() -> (out: Self)
        ensures
            out == no_stats(),
    {
        FlowStats { ops: 0, sum_us: 0, max_us: 0, sum_bytes: 0 }
    }
}

impl FlowStats {
    /// These totals with one more op.
    pub open spec fn with(self, latency_us: u64, size_bytes: u64) -> FlowStats {
        FlowStats {
            ops: (self.ops + 1) as u64,
            sum_us: saturated(self.sum_us, latency_us),
            max_us: higher(self.max_us, latency_us),
            sum_bytes: saturated(self.sum_bytes, size_bytes),
        }
    }

    /// These totals and those of `other` together.
    pub open spec fn and(self, other: FlowStats) -> FlowStats {
        FlowStats {
            ops: (self.ops + other.ops) as u64,
            sum_us: saturated(self.sum_us, other.sum_us),
            max_us: higher(self.max_us, other.max_us),
            sum_bytes: saturated(self.sum_bytes, other.sum_bytes),
        }
    }

    pub fn record(&mut self, latency_us: u64, size_bytes: u64)
        requires
            old(self).ops < u64::MAX,
        ensures
            *final(self) == old(self).with(latency_us, size_bytes),
    {
        self.ops = self.ops + 1;
        self.sum_us = saturating(self.sum_us, latency_us);
        self.max_us = if self.max_us < latency_us {
            latency_us
        } else {
            self.max_us
        };
        self.sum_bytes = saturating(self.sum_bytes, size_bytes);
    }

    pub fn merge(&mut self, other: &FlowStats)
        requires
            old(self).ops + other.ops <= u64::MAX,
        ensures
            *final(self) == old(self).and(*other),
    {
        self.ops = self.ops + other.ops;
        self.sum_us = saturating(self.sum_us, other.sum_us);
        self.max_us = if self.max_us < other.max_us {
            other.max_us
        } else {
            self.max_us
        };
        self.sum_bytes = saturating(self.sum_bytes, other.sum_bytes);
    }

    pub fn avg_us(&self) -> (out: u64)
        ensures
            out == mean(self.sum_us, self.ops),
    {
        if self.ops == 0 {
            0
        } else {
            self.sum_us / self.ops
        }
    }

    /// Mean declared op size. Beside the latency it separates a heavy request
    /// from one that is slow for the little it asks for. A read reports the
    /// length requested, so a client that always asks for 4MiB reports 4MiB
    /// whatever the object holds.
    pub fn avg_bytes(&self) -> (out: u64)
        ensures
            out == mean(self.sum_bytes, self.ops),
    {
        if self.ops == 0 {
            0
        } else {
            self.sum_bytes / self.ops
        }
    }

    /// What the metric ranks by.
    pub open spec fn rank(self, metric: FlowMetric) -> u64 {
        match metric {
            FlowMetric::Ops => self.ops,
            FlowMetric::Latency => self.max_us,
        }
    }

    pub fn key(&self, metric: FlowMetric) -> (out: u64)
        ensures
            out == self.rank(metric),
    {
        match metric {
            FlowMetric::Ops => self.ops,
            FlowMetric::Latency => self.max_us,
        }
    }
}

/// One rendered line. `depth` is 0 for an OSD, 1 for a PG, and 2 for an object.
#[derive(Clone, Debug, PartialEq, Eq)]
pub struct FlowRow {
    pub depth: usize,
    pub last_child: bool,
    pub label: String,
    pub detail: String,
    pub stats: FlowStats,
}

/// What a [`FlowRow`] says.
pub struct FlowRowView {
    pub depth: nat,
    pub last_child: bool,
    pub label: Seq<char>,
    pub detail: Seq<char>,
    pub stats: FlowStats,
}

impl View for FlowRow {
    type V = FlowRowView;

    open spec fn view(&self) -> FlowRowView {
        FlowRowView {
            depth: self.depth as nat,
            last_child: self.last_child,
            label: self.label@,
            detail: self.detail@,
            stats: self.stats,
        }
    }
}

/// What the rows say.
pub open spec fn row_views(rows: Seq<FlowRow>) -> Seq<FlowRowView> {
    rows.map_values(|r: FlowRow| r@)
}

#[derive(Clone, Debug)]
pub struct FlowTree {
    pub source: FlowSource,
    pub rows: Vec<FlowRow>,
}

/// One op on its way down the tree: the label and the detail it gives each level
/// that it passes.
pub struct FlowSample {
    pub path: Seq<Seq<char>>,
    pub details: Seq<Seq<char>>,
    pub latency_us: u64,
    pub size_bytes: u64,
}

pub open spec fn sample_latencies(samples: Seq<FlowSample>) -> Seq<u64> {
    samples.map_values(|s: FlowSample| s.latency_us)
}

pub open spec fn sample_sizes(samples: Seq<FlowSample>) -> Seq<u64> {
    samples.map_values(|s: FlowSample| s.size_bytes)
}

/// The totals of the samples.
pub open spec fn stats_of(samples: Seq<FlowSample>) -> FlowStats {
    FlowStats {
        ops: samples.len() as u64,
        sum_us: tally::capped(tally::total(sample_latencies(samples))),
        max_us: tally::largest(sample_latencies(samples)),
        sum_bytes: tally::capped(tally::total(sample_sizes(samples))),
    }
}

/// The label that a sample has at `depth`.
pub open spec fn label_at(depth: nat) -> spec_fn(FlowSample) -> Seq<char> {
    |s: FlowSample| s.path[depth as int]
}

/// The labels at `depth`, in the order in which they first occur.
pub open spec fn labels_at(samples: Seq<FlowSample>, depth: nat) -> Seq<Seq<char>> {
    tally::distinct(samples.map_values(label_at(depth)))
}

pub open spec fn has_label(depth: nat, label: Seq<char>) -> spec_fn(FlowSample) -> bool {
    |s: FlowSample| s.path[depth as int] == label
}

/// The samples below `label` at `depth`.
pub open spec fn below(samples: Seq<FlowSample>, depth: nat, label: Seq<char>) -> Seq<FlowSample> {
    samples.filter(has_label(depth, label))
}

/// How one level is ranked.
pub struct Ranking {
    pub metric: FlowMetric,
    pub sort: FlowSort,
}

/// A branch with `stats` and `label` ranks before one with `other` and
/// `other_label`: by the metric, and by the label where that ties.
pub open spec fn ranks_before(
    ranking: Ranking,
    stats: FlowStats,
    label: Seq<char>,
    other: FlowStats,
    other_label: Seq<char>,
) -> bool {
    let a = stats.rank(ranking.metric);
    let b = other.rank(ranking.metric);
    if a != b {
        match ranking.sort {
            FlowSort::Descending => a > b,
            FlowSort::Ascending => a < b,
        }
    } else {
        text::text_before(label, other_label)
    }
}

/// The order of the labels at `depth`.
pub open spec fn label_order(samples: Seq<FlowSample>, depth: nat, ranking: Ranking) -> spec_fn(
    Seq<char>,
    Seq<char>,
) -> bool {
    |a: Seq<char>, b: Seq<char>|
        ranks_before(
            ranking,
            stats_of(below(samples, depth, a)),
            a,
            stats_of(below(samples, depth, b)),
            b,
        )
}

/// The first `limit` entries.
pub open spec fn top<T>(items: Seq<T>, limit: usize) -> Seq<T> {
    if limit < items.len() {
        items.take(limit as int)
    } else {
        items
    }
}

/// The labels shown at `depth`: the first `limit` in the order of the ranking.
pub open spec fn shown_labels(
    samples: Seq<FlowSample>,
    depth: nat,
    ranking: Ranking,
    limit: usize,
) -> Seq<Seq<char>> {
    top(order::sorted_by(labels_at(samples, depth), label_order(samples, depth, ranking)), limit)
}

/// The rows of the tree over `samples` from `depth` down to `levels`: each label
/// that is shown has a row with the totals of the samples below it and the detail
/// that the last of them gave, and below that row stand the rows of the next level.
pub open spec fn rows_of(
    samples: Seq<FlowSample>,
    depth: nat,
    levels: nat,
    ranking: Ranking,
    limit: usize,
    child_limit: usize,
) -> Seq<FlowRowView>
    decreases levels - depth, 1nat, 0nat,
{
    if depth >= levels {
        Seq::empty()
    } else {
        let labels = shown_labels(samples, depth, ranking, limit);
        branch_rows(samples, labels, labels.len(), depth, levels, ranking, child_limit)
    }
}

/// The rows of the first `n` labels of a level.
pub open spec fn branch_rows(
    samples: Seq<FlowSample>,
    labels: Seq<Seq<char>>,
    n: nat,
    depth: nat,
    levels: nat,
    ranking: Ranking,
    child_limit: usize,
) -> Seq<FlowRowView>
    decreases levels - depth, 0nat, n,
{
    if n == 0 || n > labels.len() || depth >= levels {
        Seq::empty()
    } else {
        let label = labels[n - 1];
        let ours = below(samples, depth, label);
        branch_rows(samples, labels, (n - 1) as nat, depth, levels, ranking, child_limit).push(
            FlowRowView {
                depth,
                last_child: n == labels.len(),
                label,
                detail: ours.last().details[depth as int],
                stats: stats_of(ours),
            },
        ) + rows_of(ours, depth + 1, levels, ranking, child_limit, child_limit)
    }
}

/// A node of the tree: what is known of it and the branches below it, by label.
#[derive(Debug)]
pub struct Branch {
    pub detail: String,
    pub stats: FlowStats,
    pub children: Vec<(String, Branch)>,
}

/// The place of the first child labelled `key`, or the number of children where
/// there is none.
pub open spec fn child_place(children: Seq<(String, Branch)>, key: Seq<char>) -> int
    decreases children.len(),
{
    if children.len() == 0 || children[0].0@ == key {
        0
    } else {
        1 + child_place(children.drop_first(), key)
    }
}

/// A branch that nothing was recorded in.
pub open spec fn is_bare(branch: Branch) -> bool {
    &&& branch.detail@ == Seq::<char>::empty()
    &&& branch.stats == no_stats()
    &&& branch.children@ == Seq::<(String, Branch)>::empty()
}

/// `after` is `before` with the child labelled `key` replaced by `child`, or with
/// that child added at the end where there was none.
pub open spec fn child_set(before: Branch, after: Branch, key: Seq<char>, child: Branch) -> bool {
    let at = child_place(before.children@, key);
    &&& after.detail == before.detail
    &&& after.stats == before.stats
    &&& if at < before.children@.len() {
        after.children@ == before.children@.update(at, (before.children@[at].0, child))
    } else {
        &&& after.children@.len() == before.children@.len() + 1
        &&& after.children@.take(at) =~= before.children@
        &&& after.children@[at].0@ == key
        &&& after.children@[at].1 == child
    }
}

proof fn lemma_child_place(children: Seq<(String, Branch)>, key: Seq<char>, at: int)
    requires
        0 <= at <= children.len(),
        forall|i: int| 0 <= i < at ==> (#[trigger] children[i]).0@ != key,
        at < children.len() ==> children[at].0@ == key,
    ensures
        child_place(children, key) == at,
    decreases at,
{
    if at > 0 {
        assert(children[0].0@ != key);
        let tail = children.drop_first();
        assert forall|i: int| 0 <= i < at - 1 implies (#[trigger] tail[i]).0@ != key by {
            assert(tail[i] == children[i + 1]);
        }
        lemma_child_place(tail, key, at - 1);
    }
}

/// The place of a child is the first with its label, if there is one.
pub proof fn lemma_child_place_fits(children: Seq<(String, Branch)>, key: Seq<char>)
    ensures
        ({
            let at = child_place(children, key);
            &&& 0 <= at <= children.len()
            &&& forall|i: int| 0 <= i < at ==> (#[trigger] children[i]).0@ != key
            &&& at < children.len() ==> children[at].0@ == key
        }),
    decreases children.len(),
{
    if children.len() > 0 && children[0].0@ != key {
        let tail = children.drop_first();
        lemma_child_place_fits(tail, key);
        let at = child_place(children, key);
        assert forall|i: int| 0 <= i < at implies (#[trigger] children[i]).0@ != key by {
            if i > 0 {
                assert(children[i] == tail[i - 1]);
            }
        }
    }
}

impl Default for Branch {
    fn default() -> (out: Self)
        ensures
            is_bare(out),
    {
        Branch { detail: String::new(), stats: FlowStats::default(), children: Vec::new() }
    }
}

impl Branch {
    /// The child labelled `key`, which is added where there is none.
    pub fn child(&mut self, key: &str) -> (child: &mut Branch)
        ensures
            ({
                let at = child_place(old(self).children@, key@);
                if at < old(self).children@.len() {
                    *child == old(self).children@[at].1
                } else {
                    is_bare(*child)
                }
            }),
            child_set(*old(self), *final(self), key@, *final(child)),
    {
        let mut at: usize = 0;
        while at < self.children.len() && !text::same_text(self.children[at].0.as_str(), key)
            invariant
                *self == *old(self),
                at <= self.children@.len(),
                forall|i: int| 0 <= i < at ==> (#[trigger] self.children@[i]).0@ != key@,
            decreases self.children@.len() - at,
        {
            at = at + 1;
        }
        proof {
            lemma_child_place(self.children@, key@, at as int);
        }
        if at == self.children.len() {
            self.children.push((key.to_owned(), Branch::default()));
        }
        &mut self.children[at].1
    }

    /// Records one op in the child labelled `key` and gives that child.
    fn visit(&mut self, key: &str, detail: String, latency_us: u64, size_bytes: u64) -> (child:
        &mut Branch)
        requires
            ({
                let at = child_place(old(self).children@, key@);
                at < old(self).children@.len() ==> old(self).children@[at].1.stats.ops < u64::MAX
            }),
        ensures
            ({
                let at = child_place(old(self).children@, key@);
                &&& child.detail == detail
                &&& if at < old(self).children@.len() {
                    let was = old(self).children@[at].1;
                    child.stats == was.stats.with(latency_us, size_bytes) && child.children
                        == was.children
                } else {
                    child.stats == no_stats().with(latency_us, size_bytes) && child.children@
                        == Seq::<(String, Branch)>::empty()
                }
            }),
            child_set(*old(self), *final(self), key@, *final(child)),
    {
        let child = self.child(key);
        child.detail = detail;
        child.stats.record(latency_us, size_bytes);
        child
    }
}

/// `branch` holds, level by level, what `samples` say from `depth` down.
pub open spec fn describes(
    branch: Branch,
    samples: Seq<FlowSample>,
    depth: nat,
    levels: nat,
) -> bool
    decreases levels - depth,
{
    if depth >= levels {
        branch.children@.len() == 0
    } else {
        let labels = labels_at(samples, depth);
        &&& branch.children@.len() == labels.len()
        &&& forall|i: int|
            0 <= i < branch.children@.len() ==> {
                let child = (#[trigger] branch.children@[i]).1;
                let ours = below(samples, depth, labels[i]);
                &&& branch.children@[i].0@ == labels[i]
                &&& child.detail@ == ours.last().details[depth as int]
                &&& child.stats == stats_of(ours)
                &&& describes(child, ours, depth + 1, levels)
            }
    }
}

proof fn lemma_stats_push(samples: Seq<FlowSample>, x: FlowSample)
    requires
        samples.len() < u64::MAX,
    ensures
        stats_of(samples.push(x)) == stats_of(samples).with(x.latency_us, x.size_bytes),
{
    assert(sample_latencies(samples.push(x)) =~= sample_latencies(samples).push(x.latency_us));
    assert(sample_sizes(samples.push(x)) =~= sample_sizes(samples).push(x.size_bytes));
    tally::lemma_total_push(sample_latencies(samples), x.latency_us);
    tally::lemma_total_push(sample_sizes(samples), x.size_bytes);
}

proof fn lemma_labels_push(samples: Seq<FlowSample>, x: FlowSample, depth: nat)
    ensures
        labels_at(samples.push(x), depth) == if labels_at(samples, depth).contains(
            x.path[depth as int],
        ) {
            labels_at(samples, depth)
        } else {
            labels_at(samples, depth).push(x.path[depth as int])
        },
{
    assert(samples.push(x).map_values(label_at(depth)) =~= samples.map_values(
        label_at(depth),
    ).push(x.path[depth as int]));
    tally::lemma_distinct_push(samples.map_values(label_at(depth)), x.path[depth as int]);
}

proof fn lemma_new_label(samples: Seq<FlowSample>, depth: nat, label: Seq<char>)
    requires
        !labels_at(samples, depth).contains(label),
    ensures
        below(samples, depth, label) == Seq::<FlowSample>::empty(),
    decreases samples.len(),
{
    reveal(Seq::filter);
    if samples.len() > 0 {
        let rest = samples.drop_last();
        assert(samples =~= rest.push(samples.last()));
        lemma_labels_push(rest, samples.last(), depth);
        let head = labels_at(rest, depth);
        if head.contains(label) {
            let k = choose|k: int| 0 <= k < head.len() && head[k] == label;
            assert(labels_at(samples, depth)[k] == label);
        }
        if samples.last().path[depth as int] == label {
            assert(labels_at(samples, depth)[head.len() as int] == label);
        }
        lemma_new_label(rest, depth, label);
    }
    assert(below(samples, depth, label) =~= Seq::<FlowSample>::empty());
}

/// Where the place of a label in the tree is, and what stands there.
proof fn lemma_place(branch: Branch, samples: Seq<FlowSample>, depth: nat, levels: nat, key: Seq<char>)
    requires
        describes(branch, samples, depth, levels),
        depth < levels,
    ensures
        ({
            let at = child_place(branch.children@, key);
            let labels = labels_at(samples, depth);
            &&& 0 <= at <= branch.children@.len()
            &&& labels.contains(key) <==> at < branch.children@.len()
            &&& if at < branch.children@.len() {
                let child = branch.children@[at].1;
                &&& labels[at] == key
                &&& child.stats == stats_of(below(samples, depth, key))
                &&& describes(child, below(samples, depth, key), depth + 1, levels)
            } else {
                below(samples, depth, key) == Seq::<FlowSample>::empty()
            }
            &&& below(samples, depth, key).len() <= samples.len()
        }),
{
    let labels = labels_at(samples, depth);
    let at = child_place(branch.children@, key);
    lemma_child_place_fits(branch.children@, key);
    samples.lemma_filter_len(has_label(depth, key));
    if at < branch.children@.len() {
        assert(branch.children@[at].0@ == labels[at]);
        assert(labels.contains(key));
    } else {
        if labels.contains(key) {
            let k = choose|k: int| 0 <= k < labels.len() && labels[k] == key;
            assert(branch.children@[k].0@ == labels[k]);
        }
        lemma_new_label(samples, depth, key);
    }
}

/// Putting a grown child in place grows the branch.
proof fn lemma_grow(
    branch: Branch,
    grown: Branch,
    samples: Seq<FlowSample>,
    x: FlowSample,
    depth: nat,
    levels: nat,
    child: Branch,
)
    requires
        depth < levels,
        describes(branch, samples, depth, levels),
        child_set(branch, grown, x.path[depth as int], child),
        child.detail@ == x.details[depth as int],
        child.stats == stats_of(below(samples, depth, x.path[depth as int]).push(x)),
        describes(child, below(samples, depth, x.path[depth as int]).push(x), depth + 1, levels),
    ensures
        describes(grown, samples.push(x), depth, levels),
{
    let key = x.path[depth as int];
    let more = samples.push(x);
    let labels = labels_at(samples, depth);
    let names = labels_at(more, depth);
    let at = child_place(branch.children@, key);
    lemma_place(branch, samples, depth, levels, key);
    lemma_labels_push(samples, x, depth);
    tally::law_distinct_names_each_entry_once(samples.map_values(label_at(depth)));
    assert forall|i: int| 0 <= i < grown.children@.len() implies {
        let c = (#[trigger] grown.children@[i]).1;
        let ours = below(more, depth, names[i]);
        &&& grown.children@[i].0@ == names[i]
        &&& c.detail@ == ours.last().details[depth as int]
        &&& c.stats == stats_of(ours)
        &&& describes(c, ours, depth + 1, levels)
    } by {
        tally::lemma_filter_push(samples, x, has_label(depth, names[i]));
        if i == at {
            assert(names[i] == key);
            assert(below(more, depth, key) == below(samples, depth, key).push(x));
        } else {
            if at < branch.children@.len() {
                assert(grown.children@[i] == branch.children@[i]);
            } else {
                assert(grown.children@[i] == grown.children@.take(at)[i]);
                assert(grown.children@[i] == branch.children@[i]);
            }
            assert(names[i] == labels[i]);
            if names[i] == key {
                assert(labels.contains(key));
                assert(labels[at] == key && labels[i] == key);
            }
            assert(below(more, depth, names[i]) == below(samples, depth, names[i]));
        }
    }
}

proof fn lemma_bare_describes(branch: Branch, depth: nat, levels: nat)
    requires
        branch.children@.len() == 0,
    ensures
        describes(branch, Seq::<FlowSample>::empty(), depth, levels),
{
    assert(Seq::<FlowSample>::empty().map_values(label_at(depth)) =~= Seq::<Seq<char>>::empty());
}

/// The acting set as Ceph writes it.
pub open spec fn acting_text(acting: Seq<i64>) -> Seq<char> {
    "["@ + text::joined(
        acting.map_values(|id: i64| text::signed_decimal(id as int)),
        ","@,
    ) + "]"@
}

/// The acting set as Ceph writes it.
pub fn format_acting(acting: &[i64]) -> (out: String)
    ensures
        out@ == acting_text(acting@),
{
    let mut ids: Vec<String> = Vec::new();
    let mut i: usize = 0;
    let ghost all = acting@.map_values(|id: i64| text::signed_decimal(id as int));
    while i < acting.len()
        invariant
            i <= acting@.len(),
            all == acting@.map_values(|id: i64| text::signed_decimal(id as int)),
            text::texts(ids@) == all.take(i as int),
        decreases acting@.len() - i,
    {
        let ghost before = text::texts(ids@);
        ids.push(text::i64_text(acting[i]));
        i = i + 1;
        assert(text::texts(ids@) =~= before.push(all[i - 1]));
        assert(text::texts(ids@) =~= all.take(i as int));
    }
    assert(all.take(all.len() as int) =~= all);
    let inner = text::join_texts(&ids, ",");
    let mut out = "[".to_owned();
    out.append(inner.as_str());
    out.append("]");
    out
}

/// The ops whose acting set names a primary.
pub open spec fn has_primary() -> spec_fn(RadosEventView) -> bool {
    |e: RadosEventView| e.acting.len() > 0 && e.acting[0] >= 0
}

/// The host that runs the OSD, empty where it is not known.
pub open spec fn host_of(hosts: Map<i64, String>, id: i64) -> Seq<char> {
    if hosts.contains_key(id) {
        hosts[id]@
    } else {
        Seq::empty()
    }
}

/// An op of radostrace passes its primary OSD, its PG and its object.
pub open spec fn rados_sample(hosts: Map<i64, String>) -> spec_fn(RadosEventView) -> FlowSample {
    |e: RadosEventView|
        FlowSample {
            path: seq!["osd."@ + text::signed_decimal(e.acting[0] as int), e.pg, e.object],
            details: seq![host_of(hosts, e.acting[0]), acting_text(e.acting), Seq::<char>::empty()],
            latency_us: e.latency_us,
            size_bytes: e.size_bytes,
        }
}

pub open spec fn rados_samples(events: Seq<RadosEventView>, hosts: Map<i64, String>) -> Seq<
    FlowSample,
> {
    events.filter(has_primary()).map_values(rados_sample(hosts))
}

/// The ops of osdtrace that name an OSD and a PG.
pub open spec fn has_place() -> spec_fn(TraceEvent) -> bool {
    |e: TraceEvent| e.osd@.len() > 0 && e.pg@.len() > 0
}

/// An op of osdtrace passes its OSD and its PG.
pub open spec fn trace_sample() -> spec_fn(TraceEvent) -> FlowSample {
    |e: TraceEvent|
        FlowSample {
            path: seq![trace::osd_name(e.osd@), e.pg@],
            details: seq![e.host@, Seq::<char>::empty()],
            latency_us: e.op_lat_us,
            size_bytes: e.size_bytes,
        }
}

pub open spec fn trace_samples(events: Seq<TraceEvent>) -> Seq<FlowSample> {
    events.filter(has_place()).map_values(trace_sample())
}

/// Groups the ops of radostrace by OSD, PG and object. Ops without a primary are
/// left out.
pub fn rados_roots(events: &[RadosEvent], host_by_osd_id: &HashMap<i64, String>) -> (root: Branch)
    ensures
        describes(
            root,
            rados_samples(radostrace::views(events@), host_by_osd_id@),
            0,
            3,
        ),
{
    let ghost all = radostrace::views(events@);
    let ghost hosts = host_by_osd_id@;
    let mut root = Branch::default();
    let mut i: usize = 0;
    proof {
        assert(rados_samples(all.take(0), hosts) =~= Seq::<FlowSample>::empty()) by {
            reveal(Seq::filter);
        }
        lemma_bare_describes(root, 0, 3);
    }
    while i < events.len()
        invariant
            i <= events@.len(),
            all == radostrace::views(events@),
            hosts == host_by_osd_id@,
            describes(root, rados_samples(all.take(i as int), hosts), 0, 3),
        decreases events@.len() - i,
    {
        let event = &events[i];
        assert(events.len() <= usize::MAX);
        let ghost e = event@;
        let ghost seen = all.take(i as int);
        let ghost samples = rados_samples(seen, hosts);
        let ghost root0 = root;
        proof {
            assert(all.take(i + 1) =~= seen.push(e));
            tally::lemma_filter_push(seen, e, has_primary());
            seen.lemma_filter_len(has_primary());
        }
        i = i + 1;
        if event.acting.len() > 0 && event.acting[0] >= 0 {
            let primary: i64 = event.acting[0];
            let mut label = "osd.".to_owned();
            text::push_i64(&mut label, primary);
            let host = match host_by_osd_id.get(&primary) {
                Some(name) => name.clone(),
                None => String::new(),
            };
            let acting = format_acting(&event.acting);
            let ghost x = rados_sample(hosts)(e);
            proof {
                assert(rados_samples(all.take(i as int), hosts) =~= samples.push(x));
                lemma_place(root0, samples, 0, 3, x.path[0]);
            }
            let ghost in_osd = below(samples, 0, x.path[0]);
            let osd = root.visit(label.as_str(), host, event.latency_us, event.size_bytes);
            let ghost osd0 = *osd;
            proof {
                if child_place(root0.children@, x.path[0]) == root0.children@.len() {
                    lemma_bare_describes(osd0, 1, 3);
                }
                lemma_stats_push(in_osd, x);
                assert(sample_latencies(Seq::<FlowSample>::empty()) =~= Seq::<u64>::empty());
                assert(sample_sizes(Seq::<FlowSample>::empty()) =~= Seq::<u64>::empty());
                lemma_describes_children(
                    root0.children@[child_place(root0.children@, x.path[0])].1,
                    osd0,
                    in_osd,
                    1,
                    3,
                );
                assert(describes(osd0, in_osd, 1, 3));
                lemma_place(osd0, in_osd, 1, 3, x.path[1]);
            }
            let ghost in_pg = below(in_osd, 1, x.path[1]);
            let pg = osd.visit(event.pg.as_str(), acting, event.latency_us, event.size_bytes);
            let ghost pg0 = *pg;
            proof {
                if child_place(osd0.children@, x.path[1]) == osd0.children@.len() {
                    lemma_bare_describes(pg0, 2, 3);
                }
                lemma_stats_push(in_pg, x);
                lemma_describes_children(
                    osd0.children@[child_place(osd0.children@, x.path[1])].1,
                    pg0,
                    in_pg,
                    2,
                    3,
                );
                assert(describes(pg0, in_pg, 2, 3));
                lemma_place(pg0, in_pg, 2, 3, x.path[2]);
            }
            let ghost in_object = below(in_pg, 2, x.path[2]);
            let object = pg.visit(
                event.object.as_str(),
                String::new(),
                event.latency_us,
                event.size_bytes,
            );
            let ghost object0 = *object;
            proof {
                lemma_stats_push(in_object, x);
                assert(describes(object0, in_object.push(x), 3, 3));
                let osd_at = child_place(root0.children@, x.path[0]);
                let pg_at = child_place(osd0.children@, x.path[1]);
                let osd1 = root.children@[osd_at].1;
                let pg1 = osd1.children@[pg_at].1;
                assert(child_set(root0, root, x.path[0], osd1));
                assert(child_set(osd0, osd1, x.path[1], pg1));
                assert(child_set(pg0, pg1, x.path[2], object0));
                lemma_grow(pg0, pg1, in_pg, x, 2, 3, object0);
                lemma_grow(osd0, osd1, in_osd, x, 1, 3, pg1);
                lemma_grow(root0, root, samples, x, 0, 3, osd1);
            }
        } else {
            assert(rados_samples(all.take(i as int), hosts) =~= samples);
        }
    }
    assert(all.take(all.len() as int) =~= all);
    root
}

/// Only the children say whether a branch holds what the samples say.
proof fn lemma_describes_children(
    branch: Branch,
    other: Branch,
    samples: Seq<FlowSample>,
    depth: nat,
    levels: nat,
)
    ensures
        branch.children == other.children && describes(branch, samples, depth, levels)
            ==> describes(other, samples, depth, levels),
{
}

/// Groups the ops of osdtrace by OSD and PG. Ops that do not name both are left
/// out.
pub fn osd_roots(events: &[TraceEvent]) -> (root: Branch)
    ensures
        describes(root, trace_samples(events@), 0, 2),
{
    let ghost all = events@;
    let mut root = Branch::default();
    let mut i: usize = 0;
    proof {
        assert(trace_samples(all.take(0)) =~= Seq::<FlowSample>::empty()) by {
            reveal(Seq::filter);
        }
        lemma_bare_describes(root, 0, 2);
    }
    while i < events.len()
        invariant
            i <= events@.len(),
            all == events@,
            describes(root, trace_samples(all.take(i as int)), 0, 2),
        decreases events@.len() - i,
    {
        let event = &events[i];
        assert(events.len() <= usize::MAX);
        let ghost e = *event;
        let ghost seen = all.take(i as int);
        let ghost samples = trace_samples(seen);
        let ghost root0 = root;
        proof {
            assert(all.take(i + 1) =~= seen.push(e));
            tally::lemma_filter_push(seen, e, has_place());
            seen.lemma_filter_len(has_place());
        }
        i = i + 1;
        if event.osd.as_str().is_empty() || event.pg.as_str().is_empty() {
            assert(trace_samples(all.take(i as int)) =~= samples);
        } else {
            let label = trace::normalize_osd_name(event.osd.as_str());
            let ghost x = trace_sample()(e);
            proof {
                assert(trace_samples(all.take(i as int)) =~= samples.push(x));
                lemma_place(root0, samples, 0, 2, x.path[0]);
            }
            let ghost in_osd = below(samples, 0, x.path[0]);
            let osd = root.visit(
                label.as_str(),
                event.host.clone(),
                event.op_lat_us,
                event.size_bytes,
            );
            let ghost osd0 = *osd;
            proof {
                if child_place(root0.children@, x.path[0]) == root0.children@.len() {
                    lemma_bare_describes(osd0, 1, 2);
                }
                lemma_stats_push(in_osd, x);
                assert(sample_latencies(Seq::<FlowSample>::empty()) =~= Seq::<u64>::empty());
                assert(sample_sizes(Seq::<FlowSample>::empty()) =~= Seq::<u64>::empty());
                lemma_describes_children(
                    root0.children@[child_place(root0.children@, x.path[0])].1,
                    osd0,
                    in_osd,
                    1,
                    2,
                );
                assert(describes(osd0, in_osd, 1, 2));
                lemma_place(osd0, in_osd, 1, 2, x.path[1]);
            }
            let ghost in_pg = below(in_osd, 1, x.path[1]);
            let pg = osd.visit(
                event.pg.as_str(),
                String::new(),
                event.op_lat_us,
                event.size_bytes,
            );
            let ghost pg0 = *pg;
            proof {
                lemma_stats_push(in_pg, x);
                assert(describes(pg0, in_pg.push(x), 2, 2));
                let osd_at = child_place(root0.children@, x.path[0]);
                let osd1 = root.children@[osd_at].1;
                assert(child_set(root0, root, x.path[0], osd1));
                assert(child_set(osd0, osd1, x.path[1], pg0));
                lemma_grow(osd0, osd1, in_osd, x, 1, 2, pg0);
                lemma_grow(root0, root, samples, x, 0, 2, osd1);
            }
        }
    }
    assert(all.take(all.len() as int) =~= all);
    root
}

/// The order of branches with their labels.
pub open spec fn branch_order(ranking: Ranking) -> spec_fn((String, Branch), (String, Branch)) -> bool {
    |a: (String, Branch), b: (String, Branch)|
        ranks_before(ranking, a.1.stats, a.0@, b.1.stats, b.0@)
}

/// The branches that are shown of one level.
pub open spec fn shown_branches(
    children: Seq<(String, Branch)>,
    ranking: Ranking,
    limit: usize,
) -> Seq<(String, Branch)> {
    top(order::sorted_by(children, branch_order(ranking)), limit)
}

/// Orders one level by the active metric and keeps the top `limit`. Ties fall
/// back to the label so the panel does not reshuffle between ticks.
pub fn ranked(
    children: Vec<(String, Branch)>,
    metric: FlowMetric,
    sort: FlowSort,
    limit: usize,
) -> (entries: Vec<(String, Branch)>)
    ensures
        entries@ == shown_branches(children@, Ranking { metric, sort }, limit),
{
    let ghost ranking = Ranking { metric, sort };
    let less = |a: &(String, Branch), b: &(String, Branch)| -> (yes: bool)
        ensures
            yes == ranks_before(
                Ranking { metric, sort },
                a.1.stats,
                a.0@,
                b.1.stats,
                b.0@,
            ),
        {
            let x: u64 = a.1.stats.key(metric);
            let y: u64 = b.1.stats.key(metric);
            if x != y {
                match sort {
                    FlowSort::Descending => x > y,
                    FlowSort::Ascending => x < y,
                }
            } else {
                text::text_less(a.0.as_str(), b.0.as_str())
            }
        };
    let mut entries = order::sort_stable(children, less, Ghost(branch_order(ranking)));
    entries.truncate(limit);
    entries
}

/// The rows of a tree from `depth` down, three levels deep. Objects carry no
/// detail.
pub open spec fn tree_rows(
    branch: Branch,
    depth: nat,
    ranking: Ranking,
    limit: usize,
    child_limit: usize,
) -> Seq<FlowRowView>
    decreases 3 - depth, 1nat, 0nat,
{
    if depth >= 3 {
        Seq::empty()
    } else {
        let shown = shown_branches(branch.children@, ranking, limit);
        shown_rows(shown, shown.len(), depth, ranking, child_limit)
    }
}

/// The rows of the first `n` branches of a level.
pub open spec fn shown_rows(
    shown: Seq<(String, Branch)>,
    n: nat,
    depth: nat,
    ranking: Ranking,
    child_limit: usize,
) -> Seq<FlowRowView>
    decreases 3 - depth, 0nat, n,
{
    if n == 0 || n > shown.len() || depth >= 3 {
        Seq::empty()
    } else {
        let branch = shown[n - 1].1;
        shown_rows(shown, (n - 1) as nat, depth, ranking, child_limit).push(
            FlowRowView {
                depth,
                last_child: n == shown.len(),
                label: shown[n - 1].0@,
                detail: if depth == 2 {
                    Seq::empty()
                } else {
                    branch.detail@
                },
                stats: branch.stats,
            },
        ) + tree_rows(branch, depth + 1, ranking, child_limit, child_limit)
    }
}

/// Appends the rows below `branch`.
fn push_level(
    rows: &mut Vec<FlowRow>,
    branch: Branch,
    depth: usize,
    metric: FlowMetric,
    sort: FlowSort,
    limit: usize,
    child_limit: usize,
)
    requires
        depth <= 3,
    ensures
        row_views(final(rows)@) == row_views(old(rows)@) + tree_rows(
            branch,
            depth as nat,
            Ranking { metric, sort },
            limit,
            child_limit,
        ),
    decreases 3 - depth,
{
    if depth >= 3 {
        assert(row_views(rows@) =~= row_views(rows@) + Seq::<FlowRowView>::empty());
        return ;
    }
    let ghost ranking = Ranking { metric, sort };
    let ghost start = row_views(rows@);
    let entries = ranked(branch.children, metric, sort, limit);
    let ghost shown = entries@;
    let count: usize = entries.len();
    let mut index: usize = 0;
    assert(start =~= start + shown_rows(shown, 0, depth as nat, ranking, child_limit));
    for entry in it: entries
        invariant
            it.seq() == shown,
            depth < 3,
            count == shown.len(),
            index == it.index(),
            ranking == (Ranking { metric, sort }),
            row_views(rows@) == start + shown_rows(
                shown,
                it.index() as nat,
                depth as nat,
                ranking,
                child_limit,
            ),
    {
        let ghost n = index as nat;
        let (label, child) = entry;
        let ghost before = row_views(rows@);
        let row = FlowRow {
            depth,
            last_child: index + 1 == count,
            label,
            detail: if depth == 2 {
                String::new()
            } else {
                child.detail.clone()
            },
            stats: child.stats,
        };
        let ghost view = row@;
        rows.push(row);
        assert(row_views(rows@) =~= before.push(view));
        push_level(rows, child, depth + 1, metric, sort, child_limit, child_limit);
        assert(row_views(rows@) =~= start + shown_rows(
            shown,
            n + 1,
            depth as nat,
            ranking,
            child_limit,
        ));
        index = index + 1;
    }
}

/// The rows of the tree below `root`.
pub fn flatten(
    root: Branch,
    metric: FlowMetric,
    sort: FlowSort,
    max_osds: usize,
    max_children: usize,
) -> (rows: Vec<FlowRow>)
    ensures
        row_views(rows@) == tree_rows(root, 0, Ranking { metric, sort }, max_osds, max_children),
{
    let mut rows: Vec<FlowRow> = Vec::new();
    push_level(&mut rows, root, 0, metric, sort, max_osds, max_children);
    assert(row_views(rows@) =~= tree_rows(
        root,
        0,
        Ranking { metric, sort },
        max_osds,
        max_children,
    ));
    rows
}

/// Samples that give objects no detail.
pub open spec fn plain_objects(samples: Seq<FlowSample>, levels: nat) -> bool {
    levels >= 3 ==> forall|i: int|
        0 <= i < samples.len() ==> (#[trigger] samples[i]).details[2] == Seq::<char>::empty()
}

/// The rows of a tree that holds what the samples say.
proof fn lemma_tree_rows(
    branch: Branch,
    samples: Seq<FlowSample>,
    depth: nat,
    levels: nat,
    ranking: Ranking,
    limit: usize,
    child_limit: usize,
)
    requires
        describes(branch, samples, depth, levels),
        plain_objects(samples, levels),
        levels <= 3,
    ensures
        tree_rows(branch, depth, ranking, limit, child_limit) == rows_of(
            samples,
            depth,
            levels,
            ranking,
            limit,
            child_limit,
        ),
    decreases levels - depth, 1nat, 0nat,
{
    if depth < levels {
        let children = branch.children@;
        let labels = labels_at(samples, depth);
        let to = |e: (String, Branch)| e.0@;
        assert(children.map_values(to) =~= labels);
        assert forall|i: int, j: int|
            0 <= i < children.len() && 0 <= j < children.len() implies branch_order(ranking)(
            #[trigger] children[i],
            #[trigger] children[j],
        ) == label_order(samples, depth, ranking)(to(children[i]), to(children[j])) by {
            assert(children[i].0@ == labels[i] && children[j].0@ == labels[j]);
        }
        order::lemma_sorted_by_map(
            children,
            branch_order(ranking),
            to,
            label_order(samples, depth, ranking),
        );
        order::law_sorted_by_orders_the_same_entries(children, branch_order(ranking));
        let sorted = order::sorted_by(children, branch_order(ranking));
        let shown = shown_branches(children, ranking, limit);
        let names = shown_labels(samples, depth, ranking, limit);
        assert(shown.map_values(to) =~= names);
        assert forall|k: int| 0 <= k < shown.len() implies ({
            let child = (#[trigger] shown[k]).1;
            let ours = below(samples, depth, names[k]);
            &&& shown[k].0@ == names[k]
            &&& child.detail@ == ours.last().details[depth as int]
            &&& child.stats == stats_of(ours)
            &&& describes(child, ours, depth + 1, levels)
            &&& ours.len() > 0
        }) by {
            broadcast use vstd::seq_lib::group_to_multiset_ensures;

            assert(shown[k] == sorted[k]);
            assert(sorted.to_multiset().count(sorted[k]) > 0);
            assert(children.contains(sorted[k]));
            let m = choose|m: int| 0 <= m < children.len() && children[m] == sorted[k];
            assert(shown.map_values(to)[k] == shown[k].0@);
            assert(children[m].0@ == labels[m]);
            lemma_label_occurs(samples, depth, labels[m]);
        }
        lemma_shown_rows(
            shown,
            names,
            shown.len(),
            samples,
            depth,
            levels,
            ranking,
            child_limit,
        );
    } else if depth < 3 {
        assert(branch.children@.len() == 0);
        let shown = shown_branches(branch.children@, ranking, limit);
        order::law_sorted_by_orders_the_same_entries(branch.children@, branch_order(ranking));
        assert(shown.len() == 0);
    }
}

proof fn lemma_shown_rows(
    shown: Seq<(String, Branch)>,
    names: Seq<Seq<char>>,
    n: nat,
    samples: Seq<FlowSample>,
    depth: nat,
    levels: nat,
    ranking: Ranking,
    child_limit: usize,
)
    requires
        depth < levels <= 3,
        n <= shown.len(),
        shown.len() == names.len(),
        plain_objects(samples, levels),
        forall|k: int|
            0 <= k < shown.len() ==> {
                let child = (#[trigger] shown[k]).1;
                let ours = below(samples, depth, names[k]);
                &&& shown[k].0@ == names[k]
                &&& child.detail@ == ours.last().details[depth as int]
                &&& child.stats == stats_of(ours)
                &&& describes(child, ours, depth + 1, levels)
                &&& ours.len() > 0
            },
    ensures
        shown_rows(shown, n, depth, ranking, child_limit) == branch_rows(
            samples,
            names,
            n,
            depth,
            levels,
            ranking,
            child_limit,
        ),
    decreases levels - depth, 0nat, n,
{
    if n > 0 {
        lemma_shown_rows(
            shown,
            names,
            (n - 1) as nat,
            samples,
            depth,
            levels,
            ranking,
            child_limit,
        );
        let ours = below(samples, depth, names[n - 1]);
        assert(shown[n - 1].0@ == names[n - 1]);
        lemma_below_samples(samples, depth, names[n - 1]);
        assert(plain_objects(ours, levels)) by {
            if levels >= 3 {
                assert forall|i: int| 0 <= i < ours.len() implies (#[trigger] ours[i]).details[2]
                    == Seq::<char>::empty() by {
                    assert(samples.contains(ours[i]));
                }
            }
        }
        lemma_tree_rows(
            shown[n - 1].1,
            ours,
            depth + 1,
            levels,
            ranking,
            child_limit,
            child_limit,
        );
        if depth == 2 {
            assert(ours[ours.len() - 1].details[2] == Seq::<char>::empty());
        }
    }
}

proof fn lemma_below_samples(samples: Seq<FlowSample>, depth: nat, label: Seq<char>)
    ensures
        forall|i: int|
            0 <= i < below(samples, depth, label).len() ==> samples.contains(
                #[trigger] below(samples, depth, label)[i],
            ),
    decreases samples.len(),
{
    reveal(Seq::filter);
    if samples.len() > 0 {
        let rest = samples.drop_last();
        lemma_below_samples(rest, depth, label);
        let ours = below(samples, depth, label);
        assert forall|i: int| 0 <= i < ours.len() implies samples.contains(#[trigger] ours[i]) by {
            if i < below(rest, depth, label).len() {
                assert(ours[i] == below(rest, depth, label)[i]);
                assert(rest.contains(ours[i]));
                let m = choose|m: int| 0 <= m < rest.len() && rest[m] == ours[i];
                assert(samples[m] == ours[i]);
            } else {
                assert(samples[samples.len() - 1] == ours[i]);
            }
        }
    }
}

/// A label that is listed has a sample below it.
proof fn lemma_label_occurs(samples: Seq<FlowSample>, depth: nat, label: Seq<char>)
    requires
        labels_at(samples, depth).contains(label),
    ensures
        below(samples, depth, label).len() > 0,
{
    let names = samples.map_values(label_at(depth));
    tally::law_distinct_names_each_entry_once(names);
    assert(names.contains(label));
    let k = choose|k: int| 0 <= k < names.len() && names[k] == label;
    assert(has_label(depth, label)(samples[k]));
    samples.lemma_filter_contains(has_label(depth, label), k);
}

/// The ops that a tree is built from, and the levels that they pass.
pub open spec fn flow_samples(
    rados_events: Seq<RadosEventView>,
    trace_events: Seq<TraceEvent>,
    hosts: Map<i64, String>,
) -> Seq<FlowSample> {
    if rados_events.len() == 0 {
        trace_samples(trace_events)
    } else {
        rados_samples(rados_events, hosts)
    }
}

/// Builds the tree, preferring radostrace because it can name objects. Falls
/// back to osdtrace when no RADOS client op has been seen.
pub fn build_flow_tree(
    rados_events: &[RadosEvent],
    trace_events: &[TraceEvent],
    host_by_osd_id: &HashMap<i64, String>,
    metric: FlowMetric,
    sort: FlowSort,
    max_osds: usize,
    max_children: usize,
) -> (tree: FlowTree)
    ensures
        ({
            let samples = flow_samples(
                radostrace::views(rados_events@),
                trace_events@,
                host_by_osd_id@,
            );
            let levels: nat = if rados_events@.len() == 0 {
                2
            } else {
                3
            };
            &&& tree.source == if samples.len() == 0 {
                FlowSource::Empty
            } else if rados_events@.len() == 0 {
                FlowSource::Osd
            } else {
                FlowSource::Rados
            }
            &&& row_views(tree.rows@) == rows_of(
                samples,
                0,
                levels,
                Ranking { metric, sort },
                max_osds,
                max_children,
            )
        }),
        tally::total(stats_ops(osd_stats(row_views(tree.rows@)))) <= u64::MAX,
{
    let ghost ranking = Ranking { metric, sort };
    let ghost samples = flow_samples(
        radostrace::views(rados_events@),
        trace_events@,
        host_by_osd_id@,
    );
    let (roots, source) = if rados_events.len() == 0 {
        (osd_roots(trace_events), FlowSource::Osd)
    } else {
        (rados_roots(rados_events, host_by_osd_id), FlowSource::Rados)
    };
    let ghost levels: nat = if rados_events@.len() == 0 {
        2
    } else {
        3
    };
    proof {
        lemma_tree_rows(roots, samples, 0, levels, ranking, max_osds, max_children);
        radostrace::views(rados_events@).lemma_filter_len(has_primary());
        trace_events@.lemma_filter_len(has_place());
        assert(rados_events.len() <= usize::MAX && trace_events.len() <= usize::MAX);
        flow_laws::law_shown_ops_can_be_totalled(
            samples,
            levels,
            ranking,
            max_osds,
            max_children,
        );
        tally::law_distinct_names_each_entry_once(samples.map_values(label_at(0)));
        if samples.len() > 0 {
            let names = samples.map_values(label_at(0));
            assert(names.contains(names[0]));
            assert(labels_at(samples, 0).contains(names[0]));
        }
    }
    if roots.children.len() == 0 {
        proof {
            order::law_sorted_by_orders_the_same_entries(roots.children@, branch_order(ranking));
        }
        let rows: Vec<FlowRow> = Vec::new();
        assert(row_views(rows@) =~= Seq::<FlowRowView>::empty());
        return FlowTree { source: FlowSource::Empty, rows };
    }
    FlowTree { source, rows: flatten(roots, metric, sort, max_osds, max_children) }
}

/// One way down the tree to its last level.
#[derive(Clone, Debug, PartialEq, Eq)]
pub struct FlowPath {
    pub osd: String,
    pub host: String,
    pub pg: String,
    pub acting: String,
    pub object: Option<String>,
    pub stats: FlowStats,
}

/// What a [`FlowPath`] says.
pub struct FlowPathView {
    pub osd: Seq<char>,
    pub host: Seq<char>,
    pub pg: Seq<char>,
    pub acting: Seq<char>,
    pub object: Option<Seq<char>>,
    pub stats: FlowStats,
}

impl View for FlowPath {
    type V = FlowPathView;

    open spec fn view(&self) -> FlowPathView {
        FlowPathView {
            osd: self.osd@,
            host: self.host@,
            pg: self.pg@,
            acting: self.acting@,
            object: match self.object {
                Some(object) => Some(object@),
                None => None,
            },
            stats: self.stats,
        }
    }
}

/// The row of the OSD that the end of `rows` stands under.
pub open spec fn last_osd(rows: Seq<FlowRowView>) -> Option<FlowRowView>
    decreases rows.len(),
{
    if rows.len() == 0 {
        None
    } else if rows.last().depth == 0 {
        Some(rows.last())
    } else {
        last_osd(rows.drop_last())
    }
}

/// The row of the PG that the end of `rows` stands under.
pub open spec fn last_pg(rows: Seq<FlowRowView>) -> Option<FlowRowView>
    decreases rows.len(),
{
    if rows.len() == 0 || rows.last().depth == 0 {
        None
    } else if rows.last().depth == 1 {
        Some(rows.last())
    } else {
        last_pg(rows.drop_last())
    }
}

/// The path that ends at the last of `rows`, if one does: at a PG where the
/// source names no objects, and at an object.
pub open spec fn path_at(rows: Seq<FlowRowView>, source: FlowSource) -> Option<FlowPathView> {
    let row = rows.last();
    match (last_osd(rows), last_pg(rows)) {
        (Some(osd), Some(pg)) => if row.depth >= 2 || (row.depth == 1 && source == FlowSource::Osd) {
            Some(
                FlowPathView {
                    osd: osd.label,
                    host: osd.detail,
                    pg: pg.label,
                    acting: pg.detail,
                    object: if row.depth >= 2 {
                        Some(row.label)
                    } else {
                        None
                    },
                    stats: row.stats,
                },
            )
        } else {
            None
        },
        _ => None,
    }
}

/// The paths that end at the rows, in the order of the rows.
pub open spec fn paths_of(rows: Seq<FlowRowView>, source: FlowSource) -> Seq<FlowPathView>
    decreases rows.len(),
{
    if rows.len() == 0 {
        Seq::empty()
    } else {
        let head = paths_of(rows.drop_last(), source);
        match path_at(rows, source) {
            Some(path) => head.push(path),
            None => head,
        }
    }
}

/// What the paths say.
pub open spec fn path_views(paths: Seq<FlowPath>) -> Seq<FlowPathView> {
    paths.map_values(|p: FlowPath| p@)
}

/// The paths of the tree from the OSD down to the last level that the source
/// names.
pub fn flow_paths(tree: &FlowTree) -> (paths: Vec<FlowPath>)
    ensures
        path_views(paths@) == paths_of(row_views(tree.rows@), tree.source),
{
    let ghost all = row_views(tree.rows@);
    let mut paths: Vec<FlowPath> = Vec::new();
    let mut osd: Option<&FlowRow> = None;
    let mut pg: Option<&FlowRow> = None;
    let mut i: usize = 0;
    assert(path_views(paths@) =~= Seq::<FlowPathView>::empty());
    while i < tree.rows.len()
        invariant
            i <= tree.rows@.len(),
            all == row_views(tree.rows@),
            path_views(paths@) == paths_of(all.take(i as int), tree.source),
            match osd {
                Some(row) => last_osd(all.take(i as int)) == Some(row@),
                None => last_osd(all.take(i as int)) is None,
            },
            match pg {
                Some(row) => last_pg(all.take(i as int)) == Some(row@),
                None => last_pg(all.take(i as int)) is None,
            },
        decreases tree.rows@.len() - i,
    {
        let row = &tree.rows[i];
        let ghost seen = all.take(i + 1);
        let ghost before = path_views(paths@);
        proof {
            assert(seen.drop_last() =~= all.take(i as int));
            assert(seen.last() == row@);
        }
        i = i + 1;
        if row.depth == 0 {
            osd = Some(row);
            pg = None;
        } else {
            if row.depth == 1 {
                pg = Some(row);
            }
            if row.depth != 1 || matches!(tree.source, FlowSource::Osd) {
                if let (Some(osd), Some(pg)) = (osd, pg) {
                    let path = FlowPath {
                        osd: osd.label.clone(),
                        host: osd.detail.clone(),
                        pg: pg.label.clone(),
                        acting: pg.detail.clone(),
                        object: if row.depth == 1 {
                            None
                        } else {
                            Some(row.label.clone())
                        },
                        stats: row.stats,
                    };
                    assert(path_at(seen, tree.source) == Some(path@));
                    paths.push(path);
                    assert(path_views(paths@) =~= before.push(paths@.last()@));
                }
            }
        }
    }
    assert(all.take(all.len() as int) =~= all);
    paths
}

/// The rows of the OSDs.
pub open spec fn is_osd_row() -> spec_fn(FlowRowView) -> bool {
    |row: FlowRowView| row.depth == 0
}

pub open spec fn stats_ops(stats: Seq<FlowStats>) -> Seq<u64> {
    stats.map_values(|s: FlowStats| s.ops)
}

/// The totals of several groups of ops: they add up, and stop at the largest
/// number.
pub open spec fn together(stats: Seq<FlowStats>) -> FlowStats {
    FlowStats {
        ops: tally::total(stats_ops(stats)) as u64,
        sum_us: tally::capped(tally::total(stats.map_values(|s: FlowStats| s.sum_us))),
        max_us: tally::largest(stats.map_values(|s: FlowStats| s.max_us)),
        sum_bytes: tally::capped(tally::total(stats.map_values(|s: FlowStats| s.sum_bytes))),
    }
}

/// The totals of the OSDs among the rows.
pub open spec fn osd_stats(rows: Seq<FlowRowView>) -> Seq<FlowStats> {
    rows.filter(is_osd_row()).map_values(|row: FlowRowView| row.stats)
}

proof fn lemma_together_push(stats: Seq<FlowStats>, more: FlowStats)
    requires
        tally::total(stats_ops(stats)) + more.ops <= u64::MAX,
    ensures
        together(stats.push(more)) == together(stats).and(more),
        tally::total(stats_ops(stats.push(more))) == tally::total(stats_ops(stats)) + more.ops,
{
    let all = stats.push(more);
    assert(stats_ops(all) =~= stats_ops(stats).push(more.ops));
    assert(all.map_values(|s: FlowStats| s.sum_us) =~= stats.map_values(
        |s: FlowStats| s.sum_us,
    ).push(more.sum_us));
    assert(all.map_values(|s: FlowStats| s.max_us) =~= stats.map_values(
        |s: FlowStats| s.max_us,
    ).push(more.max_us));
    assert(all.map_values(|s: FlowStats| s.sum_bytes) =~= stats.map_values(
        |s: FlowStats| s.sum_bytes,
    ).push(more.sum_bytes));
    tally::lemma_total_push(stats_ops(stats), more.ops);
    tally::lemma_total_push(stats.map_values(|s: FlowStats| s.sum_us), more.sum_us);
    tally::lemma_total_push(stats.map_values(|s: FlowStats| s.max_us), more.max_us);
    tally::lemma_total_push(stats.map_values(|s: FlowStats| s.sum_bytes), more.sum_bytes);
}

/// Totals every branch so the panel can show what the tree covers.
pub fn flow_totals(rows: &[FlowRow]) -> (totals: FlowStats)
    requires
        tally::total(stats_ops(osd_stats(row_views(rows@)))) <= u64::MAX,
    ensures
        totals == together(osd_stats(row_views(rows@))),
{
    let ghost all = row_views(rows@);
    let mut totals = FlowStats::default();
    let mut i: usize = 0;
    assert(osd_stats(all.take(0)) =~= Seq::<FlowStats>::empty()) by {
        reveal(Seq::filter);
    }
    assert(stats_ops(Seq::<FlowStats>::empty()) =~= Seq::<u64>::empty());
    assert(Seq::<FlowStats>::empty().map_values(|s: FlowStats| s.sum_us) =~= Seq::<u64>::empty());
    assert(Seq::<FlowStats>::empty().map_values(|s: FlowStats| s.max_us) =~= Seq::<u64>::empty());
    assert(Seq::<FlowStats>::empty().map_values(|s: FlowStats| s.sum_bytes) =~= Seq::<
        u64,
    >::empty());
    while i < rows.len()
        invariant
            i <= rows@.len(),
            all == row_views(rows@),
            tally::total(stats_ops(osd_stats(all))) <= u64::MAX,
            osd_stats(all.take(i as int)).len() <= osd_stats(all).len(),
            osd_stats(all).take(osd_stats(all.take(i as int)).len() as int) == osd_stats(
                all.take(i as int),
            ),
            totals == together(osd_stats(all.take(i as int))),
            totals.ops == tally::total(stats_ops(osd_stats(all.take(i as int)))),
        decreases rows@.len() - i,
    {
        let ghost seen = all.take(i as int);
        let ghost stats = osd_stats(seen);
        proof {
            assert(all.take(i + 1) =~= seen.push(all[i as int]));
            tally::lemma_filter_push(seen, all[i as int], is_osd_row());
            assert(all =~= all.take(i + 1) + all.skip(i + 1));
            Seq::filter_distributes_over_add(
                all.take(i + 1),
                all.skip(i + 1),
                is_osd_row(),
            );
            let next = osd_stats(all.take(i + 1));
            assert(osd_stats(all) =~= next + osd_stats(all.skip(i + 1)));
            assert(osd_stats(all).take(next.len() as int) =~= next);
        }
        if rows[i].depth == 0 {
            proof {
                let more = all[i as int].stats;
                assert(osd_stats(all.take(i + 1)) =~= stats.push(more));
                let ops = stats_ops(osd_stats(all));
                tally::lemma_total_of_first(ops, stats.len() as int + 1);
                assert(ops.take(stats.len() as int + 1) =~= stats_ops(stats.push(more)));
                tally::lemma_total_push(stats_ops(stats), more.ops);
                assert(stats_ops(stats.push(more)) =~= stats_ops(stats).push(more.ops));
                lemma_together_push(stats, more);
            }
            totals.merge(&rows[i].stats);
        }
        i = i + 1;
    }
    assert(all.take(all.len() as int) =~= all);
    totals
}

} // verus!
