//! radostrace (librados client tracer) output, e.g.:
//!   15915  89499  8  2  2  [4,2,3]  W  4096  9023  bench_object7 [set-alloc-hint write][0, 4096]
//! columns: pid client tid pool pg acting WR size latency(us) object[ops]

use crate::order;
use crate::tally;
use crate::text;
use vstd::prelude::*;

verus! {

#[derive(Clone, Debug)]
pub struct RadosEvent {
    pub observed_at: i64,
    pub pool: String,
    /// Full `pool.seq` placement group id built from the pool and pg columns.
    pub pg: String,
    /// Acting set for the PG, primary first.
    pub acting: Vec<i64>,
    pub object: String,
    /// Size the op declared, in bytes. A write reports the data it writes. A
    /// read reports the length it asked for, which can exceed what the object
    /// holds, so this is the weight of the request rather than bytes moved.
    pub size_bytes: u64,
    pub write: bool,
    pub latency_us: u64,
}

/// What a [`RadosEvent`] says.
pub struct RadosEventView {
    pub observed_at: i64,
    pub pool: Seq<char>,
    pub pg: Seq<char>,
    pub acting: Seq<i64>,
    pub object: Seq<char>,
    pub size_bytes: u64,
    pub write: bool,
    pub latency_us: u64,
}

impl View for RadosEvent {
    type V = RadosEventView;

    open spec fn view(&self) -> RadosEventView {
        RadosEventView {
            observed_at: self.observed_at,
            pool: self.pool@,
            pg: self.pg@,
            acting: self.acting@,
            object: self.object@,
            size_bytes: self.size_bytes,
            write: self.write,
            latency_us: self.latency_us,
        }
    }
}

#[derive(Clone, Debug)]
pub struct RadosPoolRow {
    pub pool: String,
    pub count: u64,
    pub avg_us: u64,
    pub max_us: u64,
    pub writes: u64,
    pub reads: u64,
}

/// What a [`RadosPoolRow`] says.
pub struct RadosPoolRowView {
    pub pool: Seq<char>,
    pub count: u64,
    pub avg_us: u64,
    pub max_us: u64,
    pub writes: u64,
    pub reads: u64,
}

impl View for RadosPoolRow {
    type V = RadosPoolRowView;

    open spec fn view(&self) -> RadosPoolRowView {
        RadosPoolRowView {
            pool: self.pool@,
            count: self.count,
            avg_us: self.avg_us,
            max_us: self.max_us,
            writes: self.writes,
            reads: self.reads,
        }
    }
}

/// The numbers among `parts`, with the white space round them cut off.
pub open spec fn numbers_in(parts: Seq<Seq<char>>) -> Seq<i64>
    decreases parts.len(),
{
    if parts.len() == 0 {
        Seq::empty()
    } else {
        let head = numbers_in(parts.drop_last());
        match text::written_i64(text::trimmed(parts.last())) {
            Some(n) => head.push(n),
            None => head,
        }
    }
}

/// The acting set that `[4,2,3]` writes. A missing slot is `-1`.
pub open spec fn acting_of(token: Seq<char>) -> Seq<i64> {
    numbers_in(
        text::split_on(
            text::trim_back(text::trim_front(token, text::only('[')), text::only(']')),
            ',',
        ),
    )
}

/// The op that a line of radostrace output reports, if it reports one: at least
/// ten columns, the first all digits, the seventh `W` or `R`, and a latency.
pub open spec fn event_of(line: Seq<char>, observed_at: i64) -> Option<RadosEventView> {
    let columns = text::words(line);
    if columns.len() < 10 || !text::all_digits(columns[0]) || (columns[6] != "W"@ && columns[6]
        != "R"@) {
        None
    } else {
        match text::written_u64(columns[8]) {
            Some(latency_us) => Some(
                RadosEventView {
                    observed_at,
                    pool: columns[3],
                    pg: columns[3] + "."@ + columns[4],
                    acting: acting_of(columns[5]),
                    object: columns[9],
                    size_bytes: match text::written_u64(columns[7]) {
                        Some(n) => n,
                        None => 0,
                    },
                    write: columns[6] == "W"@,
                    latency_us,
                },
            ),
            None => None,
        }
    }
}

/// `chrono::Utc::now` and `DateTime::timestamp`: the current time in seconds
/// since 1970. It depends on the clock alone, so nothing is claimed of it.
#[verifier::external_body]
fn unix_now() -> (seconds: i64) {
    chrono::Utc::now().timestamp()
}

/// The op that `line` reports, observed now.
pub fn parse_rados_event(line: &str) -> (event: Option<RadosEvent>)
    ensures
        match event {
            Some(e) => event_of(line@, e.observed_at) == Some(e@),
            None => forall|at: i64| #[trigger] event_of(line@, at) is None,
        },
{
    parse_rados_event_at(line, unix_now())
}

/// The op that `line` reports, observed at `observed_at`.
pub fn parse_rados_event_at(line: &str, observed_at: i64) -> (event: Option<RadosEvent>)
    ensures
        match event {
            Some(e) => event_of(line@, observed_at) == Some(e@) && e.observed_at == observed_at,
            None => forall|at: i64| #[trigger] event_of(line@, at) is None,
        },
{
    let tokens = text::split_words(line);
    let ghost columns = text::words(line@);
    assert(columns.len() == tokens@.len());
    assert(forall|i: int| 0 <= i < tokens@.len() ==> columns[i] == #[trigger] tokens@[i]@);
    if tokens.len() < 10 || !text::digits_only(tokens[0].as_str()) {
        return None;
    }
    let write = text::same_text(tokens[6].as_str(), "W");
    if !write && !text::same_text(tokens[6].as_str(), "R") {
        return None;
    }
    let latency = text::parse_u64(tokens[8].as_str());
    match latency {
        Some(latency_us) => {
            let mut pg = tokens[3].clone();
            pg.append(".");
            pg.append(tokens[4].as_str());
            let event = RadosEvent {
                observed_at,
                pool: tokens[3].clone(),
                pg,
                acting: parse_acting(tokens[5].as_str()),
                object: tokens[9].clone(),
                size_bytes: match text::parse_u64(tokens[7].as_str()) {
                    Some(n) => n,
                    None => 0,
                },
                write,
                latency_us,
            };
            Some(event)
        },
        None => None,
    }
}

/// Parses the `[4,2,3]` acting set column. The first entry is the primary. A
/// missing slot is reported as `-1` by Ceph and is kept so the set still lines
/// up with what the cluster reported.
pub fn parse_acting(token: &str) -> (acting: Vec<i64>)
    ensures
        acting@ == acting_of(token@),
{
    let inner = text::strip_chars(token, '[', ']');
    let parts = text::split_text(inner.as_str(), ',');
    let ghost all = text::texts(parts@);
    let mut acting: Vec<i64> = Vec::new();
    let mut i: usize = 0;
    while i < parts.len()
        invariant
            i <= parts@.len(),
            all == text::texts(parts@),
            acting@ == numbers_in(all.take(i as int)),
        decreases parts@.len() - i,
    {
        assert(all.take(i + 1).drop_last() =~= all.take(i as int));
        assert(all.take(i + 1).last() == parts@[i as int]@);
        let entry = text::trim_text(parts[i].as_str());
        if let Some(n) = text::parse_i64(entry.as_str()) {
            acting.push(n);
        }
        i = i + 1;
    }
    assert(all.take(all.len() as int) =~= all);
    acting
}

/// What the events say.
pub open spec fn views(events: Seq<RadosEvent>) -> Seq<RadosEventView> {
    events.map_values(|e: RadosEvent| e@)
}

pub open spec fn pool_of() -> spec_fn(RadosEventView) -> Seq<char> {
    |e: RadosEventView| e.pool
}

pub open spec fn in_pool(pool: Seq<char>) -> spec_fn(RadosEventView) -> bool {
    |e: RadosEventView| e.pool == pool
}

pub open spec fn latencies(events: Seq<RadosEventView>) -> Seq<u64> {
    events.map_values(|e: RadosEventView| e.latency_us)
}

/// How many of the events are writes.
pub open spec fn writes_in(events: Seq<RadosEventView>) -> nat
    decreases events.len(),
{
    if events.len() == 0 {
        0
    } else {
        writes_in(events.drop_last()) + if events.last().write {
            1nat
        } else {
            0
        }
    }
}

/// The totals of one pool: its ops, their mean and largest latency, and how many
/// of them write and read.
pub open spec fn pool_row(events: Seq<RadosEventView>, pool: Seq<char>) -> RadosPoolRowView {
    let ours = events.filter(in_pool(pool));
    RadosPoolRowView {
        pool,
        count: ours.len() as u64,
        avg_us: (tally::capped(tally::total(latencies(ours))) / ours.len() as u64) as u64,
        max_us: tally::largest(latencies(ours)),
        writes: writes_in(ours) as u64,
        reads: (ours.len() - writes_in(ours)) as u64,
    }
}

/// The order of the pool rows: more ops first, then the larger maximum, then by
/// name.
pub open spec fn busier(a: RadosPoolRowView, b: RadosPoolRowView) -> bool {
    if a.count != b.count {
        a.count > b.count
    } else if a.max_us != b.max_us {
        a.max_us > b.max_us
    } else {
        text::text_before(a.pool, b.pool)
    }
}

pub open spec fn busier_first() -> spec_fn(RadosPoolRowView, RadosPoolRowView) -> bool {
    |a: RadosPoolRowView, b: RadosPoolRowView| busier(a, b)
}

/// One row for each pool that occurs, the busiest first.
pub open spec fn pool_rows(events: Seq<RadosEventView>) -> Seq<RadosPoolRowView> {
    order::sorted_by(
        tally::distinct(events.map_values(pool_of())).map_values(
            |pool: Seq<char>| pool_row(events, pool),
        ),
        busier_first(),
    )
}

/// The running totals of one pool.
struct PoolTotals {
    pool: String,
    count: u64,
    sum_us: u64,
    max_us: u64,
    writes: u64,
}

impl PoolTotals {
    spec fn holds(self, events: Seq<RadosEventView>) -> bool {
        let ours = events.filter(in_pool(self.pool@));
        &&& self.count == ours.len()
        &&& self.sum_us == tally::capped(tally::total(latencies(ours)))
        &&& self.max_us == tally::largest(latencies(ours))
        &&& self.writes == writes_in(ours)
        &&& self.writes <= self.count
    }
}

spec fn totals_hold(totals: Seq<PoolTotals>, events: Seq<RadosEventView>) -> bool {
    &&& totals.map_values(|t: PoolTotals| t.pool@) == tally::distinct(events.map_values(pool_of()))
    &&& forall|i: int| 0 <= i < totals.len() ==> (#[trigger] totals[i]).holds(events)
}

proof fn lemma_step(events: Seq<RadosEventView>, e: RadosEventView, pool: Seq<char>)
    ensures
        ({
            let ours = events.filter(in_pool(pool));
            let more = events.push(e).filter(in_pool(pool));
            if e.pool == pool {
                &&& more == ours.push(e)
                &&& tally::total(latencies(more)) == tally::total(latencies(ours)) + e.latency_us
                &&& tally::largest(latencies(more)) == if tally::largest(latencies(ours))
                    < e.latency_us {
                    e.latency_us
                } else {
                    tally::largest(latencies(ours))
                }
                &&& writes_in(more) == writes_in(ours) + if e.write {
                    1nat
                } else {
                    0
                }
            } else {
                more == ours
            }
        }),
{
    tally::lemma_filter_push(events, e, in_pool(pool));
    let ours = events.filter(in_pool(pool));
    if e.pool == pool {
        assert(latencies(ours.push(e)) =~= latencies(ours).push(e.latency_us));
        tally::lemma_total_push(latencies(ours), e.latency_us);
        assert(ours.push(e).drop_last() =~= ours);
    }
}

/// Before its first event a pool has none.
proof fn lemma_new_pool(events: Seq<RadosEventView>, pool: Seq<char>)
    requires
        !tally::distinct(events.map_values(pool_of())).contains(pool),
    ensures
        events.filter(in_pool(pool)).len() == 0,
    decreases events.len(),
{
    reveal(Seq::filter);
    if events.len() > 0 {
        let rest = events.drop_last();
        let names = events.map_values(pool_of());
        assert(names.drop_last() =~= rest.map_values(pool_of()));
        let head = tally::distinct(rest.map_values(pool_of()));
        if head.contains(pool) {
            let k = choose|k: int| 0 <= k < head.len() && head[k] == pool;
            assert(tally::distinct(names)[k] == pool);
        }
        if names.last() == pool {
            if !head.contains(pool) {
                assert(tally::distinct(names)[head.len() as int] == pool);
            }
        }
        lemma_new_pool(rest, pool);
    }
}

/// Aggregates the events by pool, the busiest pool first.
pub fn rados_pool_rows(events: &[RadosEvent]) -> (rows: Vec<RadosPoolRow>)
    ensures
        rows@.map_values(|r: RadosPoolRow| r@) == pool_rows(views(events@)),
{
    let ghost all = views(events@);
    let mut totals: Vec<PoolTotals> = Vec::new();
    let mut i: usize = 0;
    assert(totals_hold(totals@, all.take(0))) by {
        assert(all.take(0).map_values(pool_of()) =~= Seq::<Seq<char>>::empty());
        assert(totals@.map_values(|t: PoolTotals| t.pool@) =~= Seq::<Seq<char>>::empty());
    }
    while i < events.len()
        invariant
            i <= events@.len(),
            all == views(events@),
            totals_hold(totals@, all.take(i as int)),
        decreases events@.len() - i,
    {
        let event = &events[i];
        let ghost seen = all.take(i as int);
        let ghost e = event@;
        let ghost names = tally::distinct(seen.map_values(pool_of()));
        assert(events.len() <= usize::MAX);
        assert(all.take(i + 1) =~= seen.push(e));
        assert(seen.push(e).map_values(pool_of()) =~= seen.map_values(pool_of()).push(e.pool));
        let mut at: usize = 0;
        while at < totals.len() && !text::same_text(
            totals[at].pool.as_str(),
            event.pool.as_str(),
        )
            invariant
                at <= totals@.len(),
                forall|k: int| 0 <= k < at ==> (#[trigger] totals@[k]).pool@ != event.pool@,
            decreases totals@.len() - at,
        {
            at = at + 1;
        }
        let ghost before = totals@;
        proof {
            tally::lemma_distinct_push(seen.map_values(pool_of()), e.pool);
            assert(forall|k: int| 0 <= k < before.len() ==> names[k] == (#[trigger] before[k]).pool@);
            if at < before.len() {
                assert(names[at as int] == e.pool);
                assert(names.contains(e.pool));
            } else {
                assert(!names.contains(e.pool));
                lemma_new_pool(seen, e.pool);
            }
            assert(seen.filter(in_pool(e.pool)).len() <= seen.len()) by {
                seen.lemma_filter_len(in_pool(e.pool));
            }
        }
        if at == totals.len() {
            totals.push(
                PoolTotals { pool: event.pool.clone(), count: 0, sum_us: 0, max_us: 0, writes: 0 },
            );
            proof {
                let ours = seen.filter(in_pool(e.pool));
                assert(latencies(ours) =~= Seq::<u64>::empty());
            }
        }
        let ghost middle = totals@;
        assert(middle[at as int].holds(seen));
        let old_count: u64 = totals[at].count;
        let old_sum: u64 = totals[at].sum_us;
        let old_max: u64 = totals[at].max_us;
        let old_writes: u64 = totals[at].writes;
        let sum_us: u64 = if old_sum > u64::MAX - event.latency_us {
            u64::MAX
        } else {
            old_sum + event.latency_us
        };
        let updated = PoolTotals {
            pool: totals[at].pool.clone(),
            count: old_count + 1,
            sum_us,
            max_us: if old_max < event.latency_us {
                event.latency_us
            } else {
                old_max
            },
            writes: if event.write {
                old_writes + 1
            } else {
                old_writes
            },
        };
        proof {
            lemma_step(seen, e, e.pool);
            assert(updated.holds(seen.push(e)));
        }
        totals.set(at, updated);
        proof {
            assert forall|k: int| 0 <= k < totals@.len() implies (#[trigger] totals@[k]).holds(
                seen.push(e),
            ) by {
                if k != at {
                    assert(totals@[k] == before[k]);
                    assert(before[k].holds(seen));
                    lemma_step(seen, e, before[k].pool@);
                    if before[k].pool@ == e.pool {
                        assert(names[k] == e.pool && names[at as int] == e.pool);
                        tally::law_distinct_names_each_entry_once(seen.map_values(pool_of()));
                    }
                }
            }
            assert(totals@.map_values(|t: PoolTotals| t.pool@) =~= tally::distinct(
                seen.push(e).map_values(pool_of()),
            ));
        }
        i = i + 1;
    }
    assert(all.take(all.len() as int) =~= all);
    let ghost names = tally::distinct(all.map_values(pool_of()));
    let mut rows: Vec<RadosPoolRow> = Vec::new();
    let mut j: usize = 0;
    while j < totals.len()
        invariant
            j <= totals@.len(),
            names == tally::distinct(all.map_values(pool_of())),
            totals_hold(totals@, all),
            rows@.len() == j,
            all.len() == events@.len(),
            forall|k: int| 0 <= k < j ==> (#[trigger] rows@[k])@ == pool_row(all, names[k]),
        decreases totals@.len() - j,
    {
        let t = &totals[j];
        assert(events.len() <= usize::MAX);
        proof {
            assert(t.holds(all));
            assert(totals@.map_values(|t: PoolTotals| t.pool@)[j as int] == t.pool@);
            lemma_pool_not_empty(all, t.pool@);
            all.lemma_filter_len(in_pool(t.pool@));
        }
        rows.push(
            RadosPoolRow {
                pool: t.pool.clone(),
                count: t.count,
                avg_us: t.sum_us / t.count,
                max_us: t.max_us,
                writes: t.writes,
                reads: t.count - t.writes,
            },
        );
        j = j + 1;
    }
    let ghost unsorted = rows@;
    let less = |a: &RadosPoolRow, b: &RadosPoolRow| -> (yes: bool)
        ensures
            yes == busier(a@, b@),
        {
            if a.count != b.count {
                a.count > b.count
            } else if a.max_us != b.max_us {
                a.max_us > b.max_us
            } else {
                text::text_less(a.pool.as_str(), b.pool.as_str())
            }
        };
    let ghost before = |a: RadosPoolRow, b: RadosPoolRow| busier(a@, b@);
    let sorted = order::sort_stable(rows, less, Ghost(before));
    proof {
        let to = |r: RadosPoolRow| r@;
        order::lemma_sorted_by_map(unsorted, before, to, busier_first());
        assert(totals@.map_values(|t: PoolTotals| t.pool@).len() == totals@.len());
        assert(unsorted.map_values(to) =~= names.map_values(
            |pool: Seq<char>| pool_row(all, pool),
        ));
    }
    sorted
}

/// A pool that is listed has an event.
proof fn lemma_pool_not_empty(events: Seq<RadosEventView>, pool: Seq<char>)
    requires
        tally::distinct(events.map_values(pool_of())).contains(pool),
    ensures
        events.filter(in_pool(pool)).len() > 0,
    decreases events.len(),
{
    let names = events.map_values(pool_of());
    tally::law_distinct_names_each_entry_once(names);
    assert(names.contains(pool));
    let k = choose|k: int| 0 <= k < names.len() && names[k] == pool;
    let keep = in_pool(pool);
    assert(keep(events[k]));
    events.lemma_filter_contains(keep, k);
}

proof fn lemma_writes_bound(events: Seq<RadosEventView>)
    ensures
        writes_in(events) <= events.len(),
    decreases events.len(),
{
    if events.len() > 0 {
        lemma_writes_bound(events.drop_last());
    }
}

proof fn lemma_busier(a: RadosPoolRowView, b: RadosPoolRowView, c: RadosPoolRowView)
    ensures
        !busier(a, a),
        busier(a, b) && busier(b, c) ==> busier(a, c),
        !busier(a, b) && !busier(b, c) ==> !busier(a, c),
        a.pool != b.pool ==> busier(a, b) || busier(b, a),
{
    text::law_text_before_is_a_strict_total_order(a.pool, b.pool, c.pool);
    text::law_text_before_is_a_strict_total_order(c.pool, b.pool, a.pool);
    text::law_text_before_is_a_strict_total_order(a.pool, c.pool, b.pool);
    text::law_text_before_is_a_strict_total_order(a.pool, a.pool, a.pool);
}

/// Each row counts at least one op, splits its ops into writes and reads, and has
/// a mean that its maximum bounds.
pub proof fn law_pool_row_is_consistent(events: Seq<RadosEventView>, pool: Seq<char>)
    requires
        events.len() <= u64::MAX,
        events.map_values(pool_of()).contains(pool),
    ensures
        ({
            let row = pool_row(events, pool);
            &&& row.count > 0
            &&& row.writes + row.reads == row.count
            &&& row.avg_us <= row.max_us
        }),
{
    let ours = events.filter(in_pool(pool));
    let names = events.map_values(pool_of());
    let k = choose|k: int| 0 <= k < names.len() && names[k] == pool;
    assert(in_pool(pool)(events[k]));
    events.lemma_filter_contains(in_pool(pool), k);
    events.lemma_filter_len(in_pool(pool));
    lemma_writes_bound(ours);
    let slow = latencies(ours);
    tally::lemma_total_is_at_most(slow);
    let (sum, n, most) = (
        tally::capped(tally::total(slow)) as int,
        ours.len() as int,
        tally::largest(slow) as int,
    );
    assert(sum / n <= most) by (nonlinear_arith)
        requires
            sum <= n * most,
            n > 0,
            most >= 0,
    ;
}

/// Every op is counted in exactly one row.
pub proof fn law_pool_rows_count_every_op(events: Seq<RadosEventView>)
    requires
        events.len() <= u64::MAX,
    ensures
        tally::sum_of(pool_rows(events), |r: RadosPoolRowView| r.count as nat) == events.len(),
{
    let pools = tally::distinct(events.map_values(pool_of()));
    let row = |pool: Seq<char>| pool_row(events, pool);
    let count = |r: RadosPoolRowView| r.count as nat;
    let one = |e: RadosEventView| 1nat;
    tally::lemma_sorted_sum(pools.map_values(row), busier_first(), count);
    tally::lemma_sum_of_map(pools, row, count);
    tally::law_groups_add_up(events, pool_of(), one);
    tally::lemma_sum_of_ones(events, one);
    let ours = |pool: Seq<char>| count(row(pool));
    let theirs = |pool: Seq<char>|
        tally::sum_of(events.filter(tally::labelled(pool_of(), pool)), one);
    assert forall|i: int| 0 <= i < pools.len() implies ours(#[trigger] pools[i]) == theirs(
        pools[i],
    ) by {
        let pool = pools[i];
        assert(in_pool(pool) =~= tally::labelled(pool_of(), pool));
        tally::lemma_sum_of_ones(events.filter(in_pool(pool)), one);
        events.lemma_filter_len(in_pool(pool));
    }
    tally::lemma_sum_of_same(pools, ours, theirs);
}

/// There is one row for each pool, and each is busier than those that follow.
pub proof fn law_pool_rows_are_ordered(events: Seq<RadosEventView>)
    ensures
        ({
            let rows = pool_rows(events);
            &&& forall|i: int, j: int|
                0 <= i < j < rows.len() ==> busier(#[trigger] rows[i], #[trigger] rows[j])
            &&& forall|i: int|
                0 <= i < rows.len() ==> events.map_values(pool_of()).contains(
                    (#[trigger] rows[i]).pool,
                ) && rows[i] == pool_row(events, rows[i].pool)
            &&& rows.len() == tally::distinct(events.map_values(pool_of())).len()
        }),
{
    broadcast use vstd::seq_lib::group_to_multiset_ensures;

    let pools = tally::distinct(events.map_values(pool_of()));
    let row = |pool: Seq<char>| pool_row(events, pool);
    let items = pools.map_values(row);
    let before = busier_first();
    let rows = pool_rows(events);
    assert forall|a: RadosPoolRowView| !#[trigger] before(a, a) by {
        lemma_busier(a, a, a);
    }
    assert forall|a: RadosPoolRowView, b: RadosPoolRowView, c: RadosPoolRowView| #[trigger]
        before(a, b) && #[trigger] before(b, c) implies before(a, c) by {
        lemma_busier(a, b, c);
    }
    assert forall|a: RadosPoolRowView, b: RadosPoolRowView, c: RadosPoolRowView|
        !(#[trigger] before(a, b)) && !(#[trigger] before(b, c)) implies !before(a, c) by {
        lemma_busier(a, b, c);
    }
    order::law_sorted_by_orders_the_same_entries(items, before);
    tally::law_distinct_names_each_entry_once(events.map_values(pool_of()));
    assert(items.no_duplicates()) by {
        assert forall|i: int, j: int| 0 <= i < items.len() && 0 <= j < items.len() && i != j
            implies items[i] != items[j] by {
            assert(items[i].pool == pools[i] && items[j].pool == pools[j]);
        }
    }
    items.lemma_multiset_has_no_duplicates();
    rows.lemma_multiset_has_no_duplicates_conv();
    assert forall|i: int| 0 <= i < rows.len() implies events.map_values(pool_of()).contains(
        (#[trigger] rows[i]).pool,
    ) && rows[i] == pool_row(events, rows[i].pool) by {
        assert(rows.to_multiset().count(rows[i]) > 0);
        assert(items.contains(rows[i]));
        let m = choose|m: int| 0 <= m < items.len() && items[m] == rows[i];
        assert(rows[i].pool == pools[m]);
        assert(pools.contains(pools[m]));
    }
    assert forall|i: int, j: int| 0 <= i < j < rows.len() implies busier(
        #[trigger] rows[i],
        #[trigger] rows[j],
    ) by {
        assert(!before(rows[j], rows[i]));
        if rows[i].pool == rows[j].pool {
            assert(rows[i] == rows[j]);
        }
        lemma_busier(rows[i], rows[j], rows[j]);
    }
}

} // verus!
